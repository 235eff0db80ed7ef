//! What the agents of one lock come to, in the order in which the word has seen them.
//!
//! Each [`Agent`] knows its own moves. A history is all of these moves in one order, together with
//! what is stored in the protected value. That an operation finds the word that the one before it
//! left is what makes the operations on the word atomic, and that only an agent with write access
//! stores is what the guards are for. Nothing else is asked of a history.
use vstd::prelude::*;

use crate::alone::{
    is_undisturbed, leaving_undoes_reading, leaving_undoes_writing, left_by, lemma_rest,
    read_attempts_alone, undisturbed_calls_are_alone, write_attempts_alone, writes_wait_alone,
};
use crate::cells::{leaves_word, WordCall};
use crate::phase::{
    is_proper, lemma_move, op_of, reads_wait_for_writers, runs, standing, Event, Move, Phase,
    TryReadError, TryWriteError,
};
use crate::raw::{Agent, RawLock};
use crate::rwlock::{ReadGuard, WriteGuard};
use crate::system::{
    agent_of, can_read, can_write, count, executions_are_sound, is_enabled, is_execution,
    is_increment, is_sound, lemma_count_bounds, lemma_one_writer, lemma_rested, no_update_is_lost,
    reading, readers_see_no_change, stores, take, writers_see_no_change, Step, System,
};
use crate::word::{
    a_locked_word_has_one_flag, apply, call_of, new_word_is_free, operations_are_their_calls, parts,
    parts_determine_the_word, small_words_are_counts, READER_MASK, WRITE_LOCK_FLAG,
};

verus! {

/// Something that an agent does.
pub ghost enum Deed<T> {
    /// A move of the agent.
    Move(Move),
    /// A change of the protected value.
    Store(T),
}

/// One deed of one agent.
pub ghost struct Moment<T> {
    pub agent: int,
    pub what: Deed<T>,
}

/// The moves that one agent makes in a history.
pub open spec fn moves_of<T>(history: Seq<Moment<T>>, agent: int) -> Seq<Move>
    decreases history.len(),
{
    if history.len() == 0 {
        Seq::empty()
    } else {
        let before = moves_of(history.drop_last(), agent);
        match history.last().what {
            Deed::Move(what) => if history.last().agent == agent {
                before.push(what)
            } else {
                before
            },
            Deed::Store(_) => before,
        }
    }
}

/// The word of `lock` after a history of its agents.
pub open spec fn word_after<T>(lock: RawLock, history: Seq<Moment<T>>) -> u64
    decreases history.len(),
{
    if history.len() == 0 {
        lock.first()
    } else {
        let before = word_after(lock, history.drop_last());
        match history.last().what {
            Deed::Move(Move::Act(event)) => apply(event.op, before),
            _ => before,
        }
    }
}

/// The calls on the word in a history.
pub open spec fn calls_in<T>(history: Seq<Moment<T>>) -> Seq<WordCall>
    decreases history.len(),
{
    if history.len() == 0 {
        Seq::empty()
    } else {
        let before = calls_in(history.drop_last());
        match history.last().what {
            Deed::Move(Move::Act(event)) => before.push(call_of(event.op)),
            _ => before,
        }
    }
}

/// What calls on a word that was made with `first` leave, one after the other.
pub open spec fn left_by_calls(first: u64, calls: Seq<WordCall>) -> u64
    decreases calls.len(),
{
    if calls.len() == 0 {
        first
    } else {
        leaves_word(calls.last(), left_by_calls(first, calls.drop_last()))
    }
}

/// The word after a history is what the calls in it leave.
pub proof fn words_are_left_by_the_calls<T>(lock: RawLock, history: Seq<Moment<T>>)
    ensures
        word_after(lock, history) == left_by_calls(lock.first(), calls_in(history)),
    decreases history.len(),
{
    if history.len() > 0 {
        let before = history.drop_last();
        words_are_left_by_the_calls(lock, before);
        if let Deed::Move(Move::Act(event)) = history.last().what {
            operations_are_their_calls(event.op, word_after(lock, before));
            assert(calls_in(history).drop_last() =~= calls_in(before));
        }
    }
}

/// The protected value after a history that began with `value`.
pub open spec fn value_after<T>(value: T, history: Seq<Moment<T>>) -> T
    decreases history.len(),
{
    if history.len() == 0 {
        value
    } else {
        match history.last().what {
            Deed::Store(stored) => stored,
            _ => value_after(value, history.drop_last()),
        }
    }
}

/// Every operation finds the word that the operations before it have left, and whoever stores has
/// write access.
pub open spec fn is_consistent<T>(lock: RawLock, history: Seq<Moment<T>>) -> bool
    decreases history.len(),
{
    let before = history.drop_last();
    let last = history.last();
    history.len() > 0 ==> is_consistent(lock, before) && match last.what {
        Deed::Move(Move::Act(event)) => event.found == word_after(lock, before),
        Deed::Move(_) => true,
        Deed::Store(_) => standing(moves_of(before, last.agent)) == Phase::Writing,
    }
}

/// A history of `n` agents of `lock`, each of which does only what it may do. The lock was made
/// free, as every lock is.
pub open spec fn is_history<T>(lock: RawLock, history: Seq<Moment<T>>, n: nat) -> bool {
    &&& lock.first() == 0
    &&& n <= READER_MASK
    &&& is_consistent(lock, history)
    &&& forall|k: int| 0 <= k < history.len() ==> 0 <= (#[trigger] history[k]).agent < n
    &&& forall|i: int| 0 <= i < n ==> is_proper(#[trigger] moves_of(history, i))
}

/// The lock, its `n` agents and the protected value after a history that began with `value`.
pub open spec fn system_after<T>(
    lock: RawLock,
    value: T,
    history: Seq<Moment<T>>,
    n: nat,
) -> System<T> {
    System {
        word: word_after(lock, history),
        agents: Seq::new(n, |i: int| standing(moves_of(history, i))),
        data: value_after(value, history),
    }
}

/// What happens in one moment of a history.
pub open spec fn step_of<T>(moment: Moment<T>) -> Step<T> {
    let agent = moment.agent;
    match moment.what {
        Deed::Move(Move::Begin(call)) => Step::Begin { agent, call },
        Deed::Move(Move::Act(_)) => Step::Act { agent },
        Deed::Move(Move::Release) => Step::Release { agent },
        Deed::Move(Move::GiveUp) => Step::GiveUp { agent },
        Deed::Store(value) => Step::Store { agent, value },
    }
}

/// The states that a history goes through.
pub open spec fn states_of<T>(
    lock: RawLock,
    value: T,
    history: Seq<Moment<T>>,
    n: nat,
) -> Seq<System<T>> {
    Seq::new(history.len() + 1, |k: int| system_after(lock, value, history.take(k), n))
}

/// The steps that are taken in a history.
pub open spec fn steps_of<T>(history: Seq<Moment<T>>) -> Seq<Step<T>> {
    Seq::new(history.len(), |k: int| step_of(history[k]))
}

/// A history without its last moment is a history, and the last moment is a step from the one to
/// the other.
proof fn lemma_last_moment<T>(lock: RawLock, value: T, history: Seq<Moment<T>>, n: nat)
    requires
        is_history(lock, history, n),
        history.len() > 0,
    ensures
        ({
            let before = history.drop_last();
            let s = system_after(lock, value, before, n);
            let step = step_of(history.last());
            &&& is_history(lock, before, n)
            &&& is_enabled(s, step)
            &&& system_after(lock, value, history, n) == take(s, step)
        }),
{
    let before = history.drop_last();
    let last = history.last();
    let i = last.agent;
    let s = system_after(lock, value, before, n);
    let step = step_of(last);
    assert(history[history.len() - 1] == last);
    assert forall|j: int| 0 <= j < n implies is_proper(#[trigger] moves_of(before, j)) by {
        assert(is_proper(moves_of(history, j)));
        if let Deed::Move(what) = last.what {
            lemma_move(moves_of(before, j), what);
        }
    }
    assert forall|k: int| 0 <= k < before.len() implies 0 <= (#[trigger] before[k]).agent < n by {
        assert(before[k] == history[k]);
    }
    assert(is_proper(moves_of(history, i)));
    if let Deed::Move(what) = last.what {
        lemma_move(moves_of(before, i), what);
    }
    assert(system_after(lock, value, history, n).agents =~= take(s, step).agents);
}

/// The beginning of a history is a history.
proof fn lemma_prefix<T>(lock: RawLock, value: T, history: Seq<Moment<T>>, n: nat, k: int)
    requires
        is_history(lock, history, n),
        0 <= k <= history.len(),
    ensures
        is_history(lock, history.take(k), n),
    decreases history.len(),
{
    if k == history.len() {
        assert(history.take(k) =~= history);
    } else {
        assert(history.take(k) =~= history.drop_last().take(k));
        lemma_last_moment(lock, value, history, n);
        lemma_prefix(lock, value, history.drop_last(), n, k);
    }
}

/// What the agents of a lock do in a history is what they can do, so whatever holds of every
/// execution holds of them.
pub proof fn histories_are_executions<T>(
    lock: RawLock,
    value: T,
    history: Seq<Moment<T>>,
    n: nat,
)
    requires
        is_history(lock, history, n),
    ensures
        is_execution(states_of(lock, value, history, n), steps_of(history)),
        states_of(lock, value, history, n).last() == system_after(lock, value, history, n),
{
    let states = states_of(lock, value, history, n);
    let steps = steps_of(history);
    assert(history.take(0) =~= Seq::<Moment<T>>::empty());
    assert(history.take(history.len() as int) =~= history);
    assert forall|k: int| #![trigger steps[k]] 0 <= k < steps.len() implies is_enabled(
        states[k],
        steps[k],
    ) && states[k + 1] == take(states[k], steps[k]) by {
        let so_far = history.take(k + 1);
        lemma_prefix(lock, value, history, n, k + 1);
        lemma_last_moment(lock, value, so_far, n);
        assert(so_far.drop_last() =~= history.take(k));
        assert(so_far.last() == history[k]);
    }
}

/// After every history the word says of the agents what is true of them.
pub proof fn histories_are_sound<T>(lock: RawLock, value: T, history: Seq<Moment<T>>, n: nat)
    requires
        is_history(lock, history, n),
    ensures
        is_sound(system_after(lock, value, history, n)),
{
    histories_are_executions(lock, value, history, n);
    executions_are_sound(
        states_of(lock, value, history, n),
        steps_of(history),
        history.len() as int,
    );
}

/// An agent that has write access, by its own account, is the only one of its lock that has
/// access, by anybody's account.
pub proof fn agents_exclude_each_other<T>(
    lock: RawLock,
    value: T,
    history: Seq<Moment<T>>,
    n: nat,
    writer: int,
    other: int,
)
    requires
        is_history(lock, history, n),
        0 <= writer < n,
        0 <= other < n,
        other != writer,
        can_write(standing(moves_of(history, writer))),
    ensures
        !can_write(standing(moves_of(history, other))),
        !can_read(standing(moves_of(history, other))),
{
    let s = system_after(lock, value, history, n);
    histories_are_sound(lock, value, history, n);
    assert(s.agents[writer] == standing(moves_of(history, writer)));
    assert(s.agents[other] == standing(moves_of(history, other)));
    lemma_one_writer(s, writer, other);
}

/// While somebody holds a write guard of a lock, no other agent of that lock has access, and so
/// nobody else holds a guard of it.
pub proof fn write_guards_stand_alone<'a, T>(
    guard: WriteGuard<'a, T>,
    other: Agent,
    history: Seq<Moment<T>>,
    n: nat,
    i: int,
    j: int,
)
    requires
        guard.is_of(guard.lock()),
        is_history(guard.lock().raw(), history, n),
        0 <= i < n,
        0 <= j < n,
        i != j,
        guard.agent().moves() == moves_of(history, i),
        other.moves() == moves_of(history, j),
    ensures
        !can_write(other.phase()),
        !can_read(other.phase()),
{
    agents_exclude_each_other(guard.lock().raw(), guard.lock()@, history, n, i, j);
}

/// While somebody holds a read guard of a lock, no other agent of that lock has write access.
pub proof fn read_guards_keep_writers_out<'a, T>(
    guard: ReadGuard<'a, T>,
    other: Agent,
    history: Seq<Moment<T>>,
    n: nat,
    i: int,
    j: int,
)
    requires
        guard.is_of(guard.lock()),
        is_history(guard.lock().raw(), history, n),
        0 <= i < n,
        0 <= j < n,
        i != j,
        guard.agent().moves() == moves_of(history, i),
        other.moves() == moves_of(history, j),
    ensures
        !can_write(other.phase()),
{
    if can_write(other.phase()) {
        agents_exclude_each_other(guard.lock().raw(), guard.lock()@, history, n, j, i);
    }
}

/// An agent that makes no move stands where it stood.
proof fn lemma_stays<T>(history: Seq<Moment<T>>, from: int, to: int, i: int)
    requires
        0 <= from <= to <= history.len(),
        forall|k: int| from <= k < to ==> (#[trigger] history[k]).agent != i,
    ensures
        moves_of(history.take(to), i) == moves_of(history.take(from), i),
    decreases to - from,
{
    if from < to {
        lemma_stays(history, from, to - 1, i);
        assert(history.take(to).drop_last() =~= history.take(to - 1));
        assert(history.take(to).last() == history[to - 1]);
    }
}

/// The protected value is what it was when the holder of a read guard was last heard of, whatever
/// the others have done since.
pub proof fn read_guards_see_no_change<'a, T>(
    guard: ReadGuard<'a, T>,
    value: T,
    history: Seq<Moment<T>>,
    n: nat,
    i: int,
    from: int,
)
    requires
        guard.is_of(guard.lock()),
        is_history(guard.lock().raw(), history, n),
        0 <= i < n,
        guard.agent().moves() == moves_of(history, i),
        0 <= from <= history.len(),
        forall|k: int| from <= k < history.len() ==> (#[trigger] history[k]).agent != i,
    ensures
        value_after(value, history) == value_after(value, history.take(from)),
{
    let lock = guard.lock().raw();
    let states = states_of(lock, value, history, n);
    let end = history.len() as int;
    histories_are_executions(lock, value, history, n);
    assert(history.take(end) =~= history);
    assert forall|k: int| from <= k < end implies can_read(
        #[trigger] states[k].agents[i],
    ) by {
        lemma_stays(history, k, end, i);
    }
    readers_see_no_change(states, steps_of(history), from, end, i);
}

/// The protected value is what it was when the holder of a write guard was last heard of, and so
/// what it stored last, if it has stored, whatever the others have done since.
pub proof fn write_guards_see_no_change<'a, T>(
    guard: WriteGuard<'a, T>,
    value: T,
    history: Seq<Moment<T>>,
    n: nat,
    i: int,
    from: int,
)
    requires
        guard.is_of(guard.lock()),
        is_history(guard.lock().raw(), history, n),
        0 <= i < n,
        guard.agent().moves() == moves_of(history, i),
        0 <= from <= history.len(),
        forall|k: int| from <= k < history.len() ==> (#[trigger] history[k]).agent != i,
    ensures
        value_after(value, history) == value_after(value, history.take(from)),
{
    let lock = guard.lock().raw();
    let states = states_of(lock, value, history, n);
    let steps = steps_of(history);
    let end = history.len() as int;
    histories_are_executions(lock, value, history, n);
    assert(history.take(end) =~= history);
    assert forall|k: int| from <= k < end implies can_write(#[trigger] states[k].agents[i]) by {
        lemma_stays(history, k, end, i);
    }
    assert forall|k: int| from <= k < end && #[trigger] steps[k] is Store implies agent_of(steps[k])
        != i by {
        assert(history[k].agent != i);
    }
    writers_see_no_change(states, steps, from, end, i);
}

/// No update is lost: where every store in a history is an increment, the value has grown by their
/// number.
pub proof fn increments_add_up(
    lock: RawLock,
    value: int,
    history: Seq<Moment<int>>,
    n: nat,
    reads: spec_fn(int) -> int,
)
    requires
        is_history(lock, history, n),
        forall|k: int|
            0 <= k < history.len() && #[trigger] history[k].what is Store ==> is_increment(
                states_of(lock, value, history, n),
                steps_of(history),
                reads(k),
                k,
            ),
    ensures
        value_after(value, history) == value + stores(steps_of(history)),
{
    let states = states_of(lock, value, history, n);
    let steps = steps_of(history);
    histories_are_executions(lock, value, history, n);
    assert(history.take(0) =~= Seq::<Moment<int>>::empty());
    assert forall|k: int| 0 <= k < steps.len() && #[trigger] steps[k] is Store implies is_increment(
        states,
        steps,
        reads(k),
        k,
    ) by {
        assert(history[k].what is Store);
    }
    no_update_is_lost(states, steps, reads);
}

/// No agent is in the middle of a call.
pub open spec fn is_rested<T>(history: Seq<Moment<T>>, n: nat) -> bool {
    forall|i: int| 0 <= i < n ==> op_of(standing(#[trigger] moves_of(history, i))) is None
}

/// Some agent has write access.
pub open spec fn has_writer<T>(history: Seq<Moment<T>>, n: nat) -> bool {
    exists|i: int| 0 <= i < n && standing(#[trigger] moves_of(history, i)) == Phase::Writing
}

/// How many agents have read access.
pub open spec fn readers<T>(history: Seq<Moment<T>>, n: nat) -> nat {
    count(Seq::new(n, |i: int| standing(moves_of(history, i))), reading())
}

/// While no call is under way, the word tells exactly of the guards that are out: it is the lock
/// flag while a write guard is out, and otherwise the number of read guards. There is nothing in it
/// of anybody who has come and gone, and a new lock is free.
pub proof fn rested_words_tell_of_the_guards<T>(
    lock: RawLock,
    value: T,
    history: Seq<Moment<T>>,
    n: nat,
)
    requires
        is_history(lock, history, n),
        is_rested(history, n),
    ensures
        has_writer(history, n) ==> readers(history, n) == 0,
        readers(history, n) <= n,
        word_after(lock, history) == if has_writer(history, n) {
            WRITE_LOCK_FLAG
        } else {
            readers(history, n) as u64
        },
{
    let s = system_after(lock, value, history, n);
    histories_are_sound(lock, value, history, n);
    assert forall|i: int| 0 <= i < n implies op_of(#[trigger] s.agents[i]) is None by {
        assert(s.agents[i] == standing(moves_of(history, i)));
    }
    lemma_rested(s);
    lemma_count_bounds(s.agents, reading());
    if has_writer(history, n) {
        let i = choose|i: int|
            0 <= i < n && standing(#[trigger] moves_of(history, i)) == Phase::Writing;
        assert(s.agents[i] is Writing);
        if readers(history, n) > 0 {
            let j = choose|j: int| 0 <= j < n && reading()(#[trigger] s.agents[j]);
            agents_exclude_each_other(lock, value, history, n, i, j);
        }
        a_locked_word_has_one_flag();
        parts_determine_the_word(s.word, WRITE_LOCK_FLAG);
    } else {
        if parts(s.word).locked {
            let i = choose|i: int| 0 <= i < n && #[trigger] s.agents[i] is Writing;
            assert(standing(moves_of(history, i)) == Phase::Writing);
        }
        small_words_are_counts(readers(history, n) as u64);
        parts_determine_the_word(s.word, readers(history, n) as u64);
    }
}

/// A read attempt that nobody interferes with, on a lock with no other call under way, is refused
/// exactly while a write guard is out. A refused one leaves the word as it was, and a granted one is
/// counted.
pub proof fn read_attempts_meet_the_guards<T>(
    lock: RawLock,
    value: T,
    history: Seq<Moment<T>>,
    n: nat,
    events: Seq<Event>,
    end: Phase,
)
    requires
        is_history(lock, history, n),
        is_rested(history, n),
        readers(history, n) < READER_MASK,
        runs(Phase::TryReadArriving, 2, events, end),
        is_undisturbed(word_after(lock, history), events),
    ensures
        end == if has_writer(history, n) {
            Phase::ReadRefused(TryReadError::HasWriter)
        } else {
            Phase::Reading
        },
        left_by(word_after(lock, history), events) == if has_writer(history, n) {
            WRITE_LOCK_FLAG
        } else {
            (readers(history, n) + 1) as u64
        },
{
    let word = word_after(lock, history);
    rested_words_tell_of_the_guards(lock, value, history, n);
    a_locked_word_has_one_flag();
    small_words_are_counts(readers(history, n) as u64);
    undisturbed_calls_are_alone(Phase::TryReadArriving, 2, word, events, end);
    read_attempts_alone(word);
}

/// A write attempt that nobody interferes with, on a lock with no other call under way, is refused
/// because of the writer while a write guard is out, and because of the readers, with their number,
/// while read guards are out. Otherwise it is granted. A refused one leaves the word as it was.
pub proof fn write_attempts_meet_the_guards<T>(
    lock: RawLock,
    value: T,
    history: Seq<Moment<T>>,
    n: nat,
    events: Seq<Event>,
    end: Phase,
)
    requires
        is_history(lock, history, n),
        is_rested(history, n),
        runs(Phase::TryWriteClaiming, 3, events, end),
        is_undisturbed(word_after(lock, history), events),
    ensures
        end == if has_writer(history, n) {
            Phase::WriteRefused(TryWriteError::HasWriter)
        } else if readers(history, n) > 0 {
            Phase::WriteRefused(TryWriteError::HasReaders(readers(history, n) as u64))
        } else {
            Phase::Writing
        },
        left_by(word_after(lock, history), events) == if end == Phase::Writing {
            WRITE_LOCK_FLAG
        } else {
            word_after(lock, history)
        },
{
    let word = word_after(lock, history);
    rested_words_tell_of_the_guards(lock, value, history, n);
    a_locked_word_has_one_flag();
    small_words_are_counts(readers(history, n) as u64);
    undisturbed_calls_are_alone(Phase::TryWriteClaiming, 3, word, events, end);
    write_attempts_alone(word);
}

/// A blocking read that nobody interferes with, on a lock with no other call under way and no write
/// guard out, gets access on its first arrival.
pub proof fn reads_meet_no_writer<T>(
    lock: RawLock,
    value: T,
    history: Seq<Moment<T>>,
    n: nat,
    turns: nat,
    events: Seq<Event>,
    end: Phase,
)
    requires
        is_history(lock, history, n),
        is_rested(history, n),
        readers(history, n) < READER_MASK,
        !has_writer(history, n),
        turns > 0,
        runs(Phase::ReadArriving, 2 * turns, events, end),
        is_undisturbed(word_after(lock, history), events),
    ensures
        end == Phase::Reading,
        events.len() == 1,
        left_by(word_after(lock, history), events) == readers(history, n) + 1,
{
    let word = word_after(lock, history);
    rested_words_tell_of_the_guards(lock, value, history, n);
    small_words_are_counts(word);
    reads_wait_for_writers(events, end);
    lemma_first_found(word, events);
    assert(events.drop_last() =~= Seq::<Event>::empty());
    leaving_undoes_reading(word);
}

/// A blocking write that nobody interferes with, on a lock with no other call under way and no
/// guard out, gets access and sets the lock flag.
pub proof fn writes_meet_nobody<T>(
    lock: RawLock,
    value: T,
    history: Seq<Moment<T>>,
    n: nat,
    turns: nat,
    events: Seq<Event>,
    end: Phase,
)
    requires
        is_history(lock, history, n),
        is_rested(history, n),
        !has_writer(history, n),
        readers(history, n) == 0,
        turns >= 2,
        runs(Phase::WriteClaiming, turns, events, end),
        is_undisturbed(word_after(lock, history), events),
    ensures
        end == Phase::Writing,
        left_by(word_after(lock, history), events) == WRITE_LOCK_FLAG,
{
    rested_words_tell_of_the_guards(lock, value, history, n);
    undisturbed_calls_are_alone(Phase::WriteClaiming, turns, 0, events, end);
    new_word_is_free();
    leaving_undoes_writing(0);
    lemma_rest(Phase::WriteClaiming, 0, 2, turns);
    a_locked_word_has_one_flag();
}

/// A blocking write that nobody interferes with, on a lock with no other call under way, is not
/// granted while a guard is out, however long it waits, and the readers that are out stay counted.
pub proof fn writes_wait_for_the_guards<T>(
    lock: RawLock,
    value: T,
    history: Seq<Moment<T>>,
    n: nat,
    turns: nat,
    events: Seq<Event>,
    end: Phase,
)
    requires
        is_history(lock, history, n),
        is_rested(history, n),
        has_writer(history, n) || readers(history, n) > 0,
        runs(Phase::WriteClaiming, turns, events, end),
        is_undisturbed(word_after(lock, history), events),
    ensures
        end != Phase::Writing,
        parts(left_by(word_after(lock, history), events)).readers == readers(history, n),
{
    let word = word_after(lock, history);
    rested_words_tell_of_the_guards(lock, value, history, n);
    a_locked_word_has_one_flag();
    small_words_are_counts(readers(history, n) as u64);
    undisturbed_calls_are_alone(Phase::WriteClaiming, turns, word, events, end);
    writes_wait_alone(word, turns);
}

/// The first of the events finds the word as it was.
proof fn lemma_first_found(bits: u64, events: Seq<Event>)
    requires
        is_undisturbed(bits, events),
    ensures
        events.len() > 0 ==> events[0].found == bits,
    decreases events.len(),
{
    if events.len() > 1 {
        lemma_first_found(bits, events.drop_last());
    }
}

} // verus!
