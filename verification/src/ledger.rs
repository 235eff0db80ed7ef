//! All calls that are made on one shared word or count, in one order, whoever makes them.
//!
//! A ledger has the calls of any number of traces, those that agents and handles keep and those
//! that nobody has kept. Of a trace it is asked only what the calls in [`crate::cells`] ask for:
//! that it gives back what it has taken, and nothing else. That a call finds what the one before
//! it left is what makes the calls atomic.
use vstd::prelude::*;

use crate::cells::{
    added, arrivals, flags, leaves_count, leaves_word, CountCall, CountDone, SharedCount, SharedWord,
    WordCall, WordDone,
};
use crate::arc::Arc;
use crate::counter;
use crate::counter::{lemma_balance, watches, CountEvent, CountOp, Tally};
use crate::phase;
use crate::phase::{is_proper, standing, Move, Phase};
use crate::raw::{agents_have_what_they_took, calls_of, Agent};
use crate::rwlock::{ReadGuard, WriteGuard};
use crate::system::{can_read, can_write};
use crate::tallies::left_by_calls;
use crate::wait_group::WaitGroup;
use crate::word::{
    apply_to_parts, new_word_is_free, operations_are_their_calls, operations_change_one_part, parts,
    Op, READER_MASK, WRITE_LOCK_FLAG, WRITE_QUEUE_FLAG,
};

verus! {

/// The sum of what `f` gives for `0` to `n - 1`.
pub open spec fn sum(n: nat, f: spec_fn(int) -> int) -> int
    decreases n,
{
    if n == 0 {
        0
    } else {
        sum((n - 1) as nat, f) + f(n - 1)
    }
}

/// Where one summand changes, the sum changes by as much.
proof fn lemma_sum_change(n: nat, f: spec_fn(int) -> int, g: spec_fn(int) -> int, i: int)
    requires
        forall|j: int| 0 <= j < n && j != i ==> #[trigger] f(j) == g(j),
    ensures
        sum(n, g) == sum(n, f) + if 0 <= i < n {
            g(i) - f(i)
        } else {
            0
        },
    decreases n,
{
    if n > 0 {
        lemma_sum_change((n - 1) as nat, f, g, i);
    }
}

/// A sum of what is not negative is no less than two of its summands.
proof fn lemma_sum_parts(n: nat, f: spec_fn(int) -> int, i: int, j: int)
    requires
        forall|k: int| 0 <= k < n ==> #[trigger] f(k) >= 0,
    ensures
        sum(n, f) >= 0,
        0 <= i < n ==> sum(n, f) >= f(i),
        0 <= i < n && 0 <= j < n && i != j ==> sum(n, f) >= f(i) + f(j),
    decreases n,
{
    if n > 0 {
        let m = (n - 1) as nat;
        lemma_sum_parts(m, f, i, j);
        lemma_sum_parts(m, f, j, i);
    }
}

/// A call on a word, and which of the traces it is in.
pub ghost struct WordEntry {
    pub trace: int,
    pub done: WordDone,
}

/// The calls of one trace in a ledger.
pub open spec fn calls_by(ledger: Seq<WordEntry>, trace: int) -> Seq<WordDone>
    decreases ledger.len(),
{
    if ledger.len() == 0 {
        Seq::empty()
    } else {
        let before = calls_by(ledger.drop_last(), trace);
        if ledger.last().trace == trace {
            before.push(ledger.last().done)
        } else {
            before
        }
    }
}

/// The word after the calls of a ledger.
pub open spec fn word_left(word: SharedWord, ledger: Seq<WordEntry>) -> u64
    decreases ledger.len(),
{
    if ledger.len() == 0 {
        word.first()
    } else {
        leaves_word(ledger.last().done.call, word_left(word, ledger.drop_last()))
    }
}

/// The trace has what the call gives back, and the call is one of those that a lock makes.
pub open spec fn may_call(before: Seq<WordDone>, word: SharedWord, call: WordCall) -> bool {
    match call {
        WordCall::Add(n) => n == 1,
        WordCall::Sub(n) => n == 1 && n <= arrivals(before, word),
        WordCall::Or(n) => n == WRITE_LOCK_FLAG || n == WRITE_QUEUE_FLAG,
        WordCall::Xor(n) => (n == WRITE_LOCK_FLAG || n == WRITE_QUEUE_FLAG) && flags(
            before,
            word,
        ).contains(n),
        WordCall::Load => true,
    }
}

/// A ledger of `n` traces on the word of a lock that was made free. There is room in the word for
/// every arrival.
pub open spec fn is_ledger(word: SharedWord, ledger: Seq<WordEntry>, n: nat) -> bool
    decreases ledger.len(),
{
    let before = ledger.drop_last();
    let last = ledger.last();
    &&& word.first() == 0
    &&& ledger.len() > 0 ==> {
        &&& is_ledger(word, before, n)
        &&& 0 <= last.trace < n
        &&& last.done.word == word
        &&& last.done.found == word_left(word, before)
        &&& may_call(calls_by(before, last.trace), word, last.done.call)
        &&& last.done.call is Add ==> parts(last.done.found).readers < READER_MASK
    }
}

/// How often each trace is counted.
pub open spec fn counted(word: SharedWord, ledger: Seq<WordEntry>) -> spec_fn(int) -> int {
    |i: int| arrivals(calls_by(ledger, i), word)
}

/// The trace has set the flag.
pub open spec fn has_flag(word: SharedWord, ledger: Seq<WordEntry>, i: int, flag: u64) -> bool {
    flags(calls_by(ledger, i), word).contains(flag)
}

/// The operation that makes the call.
spec fn op_for(call: WordCall) -> Op {
    match call {
        WordCall::Add(_) => Op::Arrive,
        WordCall::Sub(_) => Op::Leave,
        WordCall::Or(n) => if n == WRITE_LOCK_FLAG {
            Op::Claim
        } else {
            Op::Queue
        },
        WordCall::Xor(n) => if n == WRITE_LOCK_FLAG {
            Op::Unclaim
        } else {
            Op::Unqueue
        },
        WordCall::Load => Op::Look,
    }
}

/// The flag is set in `bits`.
spec fn is_set(bits: u64, flag: u64) -> bool {
    if flag == WRITE_LOCK_FLAG {
        parts(bits).locked
    } else {
        parts(bits).queued
    }
}

/// The flag is set exactly while some trace has it, and no two traces have it.
spec fn is_owned(word: SharedWord, ledger: Seq<WordEntry>, n: nat, flag: u64) -> bool {
    &&& is_set(word_left(word, ledger), flag) <==> exists|i: int|
        0 <= i < n && #[trigger] has_flag(word, ledger, i, flag)
    &&& forall|i: int, j: int|
        0 <= i < n && 0 <= j < n && #[trigger] has_flag(word, ledger, i, flag)
            && #[trigger] has_flag(word, ledger, j, flag) ==> i == j
}

/// One call more keeps the flags in the hands of those who have set them.
proof fn lemma_owned(word: SharedWord, ledger: Seq<WordEntry>, n: nat, flag: u64)
    requires
        is_ledger(word, ledger, n),
        ledger.len() > 0,
        flag == WRITE_LOCK_FLAG || flag == WRITE_QUEUE_FLAG,
        is_owned(word, ledger.drop_last(), n, flag),
        last_changes_one_part(word, ledger),
    ensures
        is_owned(word, ledger, n, flag),
{
    let before = ledger.drop_last();
    let last = ledger.last();
    let t = last.trace;
    let mine = calls_by(before, t);
    assert(mine.push(last.done).drop_last() =~= mine);
    assert forall|i: int| i != t implies #[trigger] has_flag(word, ledger, i, flag) == has_flag(
        word,
        before,
        i,
        flag,
    ) by {}
    let had = has_flag(word, before, t, flag);
    let has = has_flag(word, ledger, t, flag);
    if last.done.call == WordCall::Or(flag) {
        if !is_set(word_left(word, before), flag) {
            assert(has);
            assert forall|i: int| 0 <= i < n implies !has_flag(word, before, i, flag) by {}
        } else {
            let i = choose|i: int| 0 <= i < n && #[trigger] has_flag(word, before, i, flag);
            assert(had == has);
            assert(has_flag(word, ledger, i, flag));
        }
    } else if last.done.call == WordCall::Xor(flag) {
        assert(had && !has);
        assert forall|i: int| 0 <= i < n implies !#[trigger] has_flag(word, ledger, i, flag) by {
            if has_flag(word, ledger, i, flag) {
                assert(has_flag(word, before, i, flag));
            }
        }
    } else {
        assert(had == has);
        if is_set(word_left(word, before), flag) {
            let i = choose|i: int| 0 <= i < n && #[trigger] has_flag(word, before, i, flag);
            assert(has_flag(word, ledger, i, flag));
        }
        if exists|i: int| 0 <= i < n && #[trigger] has_flag(word, ledger, i, flag) {
            let i = choose|i: int| 0 <= i < n && #[trigger] has_flag(word, ledger, i, flag);
            assert(has_flag(word, before, i, flag));
        }
    }
}

/// The last call changes one part of the word.
spec fn last_changes_one_part(word: SharedWord, ledger: Seq<WordEntry>) -> bool {
    parts(word_left(word, ledger)) == apply_to_parts(
        op_for(ledger.last().done.call),
        parts(word_left(word, ledger.drop_last())),
    )
}

/// Whatever is called on a word, and whether anybody keeps the record or not: the word counts each
/// arrival that was not taken back, a flag is set exactly while some trace has it, and no two
/// traces have the same one. Nobody can take out of the word what another has put in.
pub proof fn words_add_up(word: SharedWord, ledger: Seq<WordEntry>, n: nat)
    requires
        is_ledger(word, ledger, n),
    ensures
        parts(word_left(word, ledger)).readers == sum(n, counted(word, ledger)),
        forall|i: int| 0 <= i < n ==> #[trigger] counted(word, ledger)(i) >= 0,
        parts(word_left(word, ledger)).locked <==> exists|i: int|
            0 <= i < n && #[trigger] has_flag(word, ledger, i, WRITE_LOCK_FLAG),
        parts(word_left(word, ledger)).queued <==> exists|i: int|
            0 <= i < n && #[trigger] has_flag(word, ledger, i, WRITE_QUEUE_FLAG),
        forall|i: int, j: int|
            0 <= i < n && 0 <= j < n && #[trigger] has_flag(word, ledger, i, WRITE_LOCK_FLAG)
                && #[trigger] has_flag(word, ledger, j, WRITE_LOCK_FLAG) ==> i == j,
        forall|i: int, j: int|
            0 <= i < n && 0 <= j < n && #[trigger] has_flag(word, ledger, i, WRITE_QUEUE_FLAG)
                && #[trigger] has_flag(word, ledger, j, WRITE_QUEUE_FLAG) ==> i == j,
{
    lemma_words_add_up(word, ledger, n);
}

proof fn lemma_words_add_up(word: SharedWord, ledger: Seq<WordEntry>, n: nat)
    requires
        is_ledger(word, ledger, n),
    ensures
        parts(word_left(word, ledger)).readers == sum(n, counted(word, ledger)),
        forall|i: int| 0 <= i < n ==> #[trigger] counted(word, ledger)(i) >= 0,
        is_owned(word, ledger, n, WRITE_LOCK_FLAG),
        is_owned(word, ledger, n, WRITE_QUEUE_FLAG),
    decreases ledger.len(),
{
    let f = counted(word, ledger);
    if ledger.len() == 0 {
        new_word_is_free();
        lemma_sum_zero(n, f);
    } else {
        let before = ledger.drop_last();
        let last = ledger.last();
        let t = last.trace;
        let g = counted(word, before);
        let bits = word_left(word, before);
        let op = op_for(last.done.call);
        let mine = calls_by(before, t);
        lemma_words_add_up(word, before, n);
        assert(mine.push(last.done).drop_last() =~= mine);
        assert forall|j: int| 0 <= j < n && j != t implies #[trigger] g(j) == f(j) by {}
        lemma_sum_change(n, g, f, t);
        lemma_sum_parts(n, g, t, t);
        assert(g(t) == arrivals(mine, word));
        operations_are_their_calls(op, bits);
        operations_change_one_part(op, bits);
        assert forall|i: int| 0 <= i < n implies #[trigger] f(i) >= 0 by {
            assert(g(i) >= 0);
        }
        lemma_owned(word, ledger, n, WRITE_LOCK_FLAG);
        lemma_owned(word, ledger, n, WRITE_QUEUE_FLAG);
    }
}

/// A sum of nothing is nothing.
proof fn lemma_sum_zero(n: nat, f: spec_fn(int) -> int)
    requires
        forall|i: int| 0 <= i < n ==> #[trigger] f(i) == 0,
    ensures
        sum(n, f) == 0,
    decreases n,
{
    if n > 0 {
        lemma_sum_zero((n - 1) as nat, f);
    }
}

/// A call that finds so many readers in the word finds all arrivals that were not taken back, of
/// whatever trace: it finds none only if there is none.
pub proof fn calls_find_all_who_are_counted(
    word: SharedWord,
    ledger: Seq<WordEntry>,
    n: nat,
    i: int,
)
    requires
        is_ledger(word, ledger, n),
        ledger.len() > 0,
        0 <= i < n,
    ensures
        ({
            let then = ledger.drop_last();
            let found = parts(ledger.last().done.found).readers;
            &&& found == sum(n, counted(word, then))
            &&& found >= arrivals(calls_by(then, i), word)
        }),
{
    let then = ledger.drop_last();
    words_add_up(word, then, n);
    lemma_sum_parts(n, counted(word, then), i, i);
    assert(counted(word, then)(i) == arrivals(calls_by(then, i), word));
}

/// Nobody has write access while another has access, whatever else is called on the word and
/// whoever keeps the records: it is enough that the two have gone about it as the protocol says.
pub proof fn access_is_exclusive(
    word: SharedWord,
    ledger: Seq<WordEntry>,
    n: nat,
    i: int,
    j: int,
    writer: Seq<Move>,
    other: Seq<Move>,
)
    requires
        is_ledger(word, ledger, n),
        0 <= i < n,
        0 <= j < n,
        i != j,
        is_proper(writer),
        is_proper(other),
        calls_by(ledger, i) == calls_of(word, phase::events_in(writer)),
        calls_by(ledger, j) == calls_of(word, phase::events_in(other)),
        can_write(standing(writer)),
    ensures
        !can_write(standing(other)),
        !can_read(standing(other)),
    decreases ledger.len(), writer.len() + other.len(),
{
    words_add_up(word, ledger, n);
    agents_have_what_they_took(word, writer);
    agents_have_what_they_took(word, other);
    assert(has_flag(word, ledger, i, WRITE_LOCK_FLAG));
    assert(has_flag(word, ledger, j, WRITE_LOCK_FLAG) == crate::system::has_lock_flag(
        standing(other),
    ));
    if can_read(standing(other)) {
        if !(writer.last() is Act) {
            access_is_exclusive(word, ledger, n, i, j, writer.drop_last(), other);
        } else if !(other.last() is Act) {
            access_is_exclusive(word, ledger, n, i, j, writer, other.drop_last());
        } else {
            let before = ledger.drop_last();
            lemma_acted(word, ledger, i, writer);
            lemma_acted(word, ledger, j, other);
            if ledger.last().trace == i {
                // the writer has just found nobody counted, but the reader is
                calls_find_all_who_are_counted(word, ledger, n, j);
                agents_have_what_they_took(word, other);
            } else if ledger.last().trace == j {
                // the reader has just found no flag, but the writer has one
                words_add_up(word, before, n);
                assert(has_flag(word, before, i, WRITE_LOCK_FLAG));
            } else {
                access_is_exclusive(word, before, n, i, j, writer, other);
            }
        }
    }
}

/// The last call of a trace that performs an event.
proof fn lemma_acted(word: SharedWord, ledger: Seq<WordEntry>, i: int, moves: Seq<Move>)
    requires
        moves.len() > 0,
        moves.last() is Act,
        calls_by(ledger, i) == calls_of(word, phase::events_in(moves)),
    ensures
        ledger.len() > 0,
        ledger.last().trace == i ==> {
            &&& moves.last() matches Move::Act(event) && ledger.last().done.found == event.found
            &&& calls_by(ledger.drop_last(), i) == calls_of(
                word,
                phase::events_in(moves.drop_last()),
            )
        },
{
    let event = moves.last()->Act_0;
    let log = phase::events_in(moves.drop_last());
    assert(phase::events_in(moves) == log.push(event));
    let done = calls_of(word, log.push(event));
    assert(done.len() == log.len() + 1);
    assert(done.last().found == event.found);
    assert(done.drop_last() =~= calls_of(word, log));
    if ledger.len() > 0 && ledger.last().trace == i {
        let mine = calls_by(ledger.drop_last(), i);
        assert(calls_by(ledger, i) == mine.push(ledger.last().done));
        assert(mine.push(ledger.last().done).drop_last() =~= mine);
        assert(mine.push(ledger.last().done).last() == ledger.last().done);
    }
}

/// While somebody holds a write guard of a lock, no other agent of that lock has access, whatever
/// else is called on the word of the lock. So no write is granted while a read guard is out.
pub proof fn write_guards_stand_alone<'a, T>(
    guard: WriteGuard<'a, T>,
    other: Agent,
    ledger: Seq<WordEntry>,
    n: nat,
    i: int,
    j: int,
)
    requires
        guard.is_of(guard.lock()),
        other.is_true(),
        other.lock() == guard.lock().raw(),
        is_ledger(guard.lock().raw().word(), ledger, n),
        0 <= i < n,
        0 <= j < n,
        i != j,
        guard.agent().calls() == calls_by(ledger, i),
        other.calls() == calls_by(ledger, j),
    ensures
        !can_write(other.phase()),
        !can_read(other.phase()),
{
    access_is_exclusive(
        guard.lock().raw().word(),
        ledger,
        n,
        i,
        j,
        guard.agent().moves(),
        other.moves(),
    );
}

/// A read guard that is out is counted in the word, whatever else is called on it, so nobody finds
/// the lock without readers.
pub proof fn read_guards_are_counted<'a, T>(
    guard: ReadGuard<'a, T>,
    ledger: Seq<WordEntry>,
    n: nat,
    i: int,
)
    requires
        guard.is_of(guard.lock()),
        is_ledger(guard.lock().raw().word(), ledger, n),
        0 <= i < n,
        guard.agent().calls() == calls_by(ledger, i),
    ensures
        parts(word_left(guard.lock().raw().word(), ledger)).readers >= 1,
{
    let word = guard.lock().raw().word();
    words_add_up(word, ledger, n);
    agents_have_what_they_took(word, guard.agent().moves());
    lemma_sum_parts(n, counted(word, ledger), i, i);
    assert(counted(word, ledger)(i) == 1);
}

/// A call on a count, and which of the traces it is in.
pub ghost struct CountEntry {
    pub trace: int,
    pub done: CountDone,
}

/// The calls of one trace in a ledger of a count.
pub open spec fn count_calls_by(ledger: Seq<CountEntry>, trace: int) -> Seq<CountDone>
    decreases ledger.len(),
{
    if ledger.len() == 0 {
        Seq::empty()
    } else {
        let before = count_calls_by(ledger.drop_last(), trace);
        if ledger.last().trace == trace {
            before.push(ledger.last().done)
        } else {
            before
        }
    }
}

/// The count after the calls of a ledger.
pub open spec fn count_left(count: SharedCount, ledger: Seq<CountEntry>) -> usize
    decreases ledger.len(),
{
    if ledger.len() == 0 {
        count.first()
    } else {
        leaves_count(ledger.last().done.call, count_left(count, ledger.drop_last()))
    }
}

/// How much of the count each trace accounts for. What was there to begin with was lent to the
/// first.
pub open spec fn accounts(count: SharedCount, ledger: Seq<CountEntry>) -> spec_fn(int) -> int {
    |i: int|
        added(count_calls_by(ledger, i), count) + if i == 0 {
            count.first() as int
        } else {
            0
        }
}

/// A ledger of `n` traces on a count that handles rest on: what a trace subtracts, it accounts
/// for. There is room in the count for every handle.
pub open spec fn is_count_ledger(count: SharedCount, ledger: Seq<CountEntry>, n: nat) -> bool
    decreases ledger.len(),
{
    let before = ledger.drop_last();
    let last = ledger.last();
    &&& n > 0
    &&& ledger.len() > 0 ==> {
        &&& is_count_ledger(count, before, n)
        &&& 0 <= last.trace < n
        &&& last.done.count == count
        &&& last.done.found == count_left(count, before)
        &&& match last.done.call {
            CountCall::Add(k) => last.done.found + k <= usize::MAX,
            CountCall::Sub(k) => k <= accounts(count, before)(last.trace),
            CountCall::Load => true,
        }
    }
}

/// Whatever is called on a count, and whether anybody keeps the record or not: the count is what
/// the traces account for, all together, and none accounts for less than nothing.
pub proof fn counts_add_up(count: SharedCount, ledger: Seq<CountEntry>, n: nat)
    requires
        is_count_ledger(count, ledger, n),
    ensures
        count_left(count, ledger) == sum(n, accounts(count, ledger)),
        forall|i: int| 0 <= i < n ==> #[trigger] accounts(count, ledger)(i) >= 0,
    decreases ledger.len(),
{
    let f = accounts(count, ledger);
    if ledger.len() == 0 {
        let nothing = |i: int| 0int;
        lemma_sum_zero(n, nothing);
        lemma_sum_change(n, nothing, f, 0);
    } else {
        let before = ledger.drop_last();
        let last = ledger.last();
        let t = last.trace;
        let g = accounts(count, before);
        let mine = count_calls_by(before, t);
        counts_add_up(count, before, n);
        assert(mine.push(last.done).drop_last() =~= mine);
        assert forall|j: int| 0 <= j < n && j != t implies #[trigger] g(j) == f(j) by {}
        lemma_sum_change(n, g, f, t);
        lemma_sum_parts(n, g, t, t);
        let all = (usize::MAX + 1) as nat;
        match last.done.call {
            CountCall::Add(k) => {
                vstd::arithmetic::div_mod::lemma_small_mod((last.done.found + k) as nat, all);
            },
            CountCall::Sub(k) => {
                vstd::arithmetic::div_mod::lemma_small_mod((last.done.found - k) as nat, all);
            },
            CountCall::Load => {},
        }
        assert forall|i: int| 0 <= i < n implies #[trigger] f(i) >= 0 by {
            assert(g(i) >= 0);
        }
    }
}

/// A look that finds the count at one, while a handle of one's own is counted, finds nothing else
/// counted: every other trace has given back all that it took.
pub proof fn one_is_alone(count: SharedCount, ledger: Seq<CountEntry>, n: nat, own: int, other: int)
    requires
        is_count_ledger(count, ledger, n),
        0 <= own < n,
        0 <= other < n,
        own != other,
        accounts(count, ledger)(own) >= 1,
        count_left(count, ledger) == 1,
    ensures
        accounts(count, ledger)(own) == 1,
        accounts(count, ledger)(other) == 0,
{
    counts_add_up(count, ledger, n);
    lemma_sum_parts(n, accounts(count, ledger), own, other);
    lemma_sum_parts(n, accounts(count, ledger), other, own);
}

/// The tally is the one of trace `i` in the ledger.
pub open spec fn is_tally_of(tally: Tally, ledger: Seq<CountEntry>, i: int) -> bool {
    let count = tally.counter().count();
    &&& tally.is_true()
    &&& tally.calls() == count_calls_by(ledger, i)
    &&& tally.lent() == if i == 0 {
        count.first() as int
    } else {
        0
    }
}

/// A tally says what its trace accounts for.
proof fn lemma_standing(tally: Tally, ledger: Seq<CountEntry>, i: int)
    requires
        is_tally_of(tally, ledger, i),
    ensures
        accounts(tally.counter().count(), ledger)(i) == tally.standing(),
{
    lemma_balance(tally.counter().count(), tally.log());
}

/// Waiting does not come to an end while another handle of the group is there, whatever else is
/// called on the count. `group` waits, `tally` is what its looks came to, and `worker` is there
/// when the last of them is made.
pub proof fn waits_outlast_the_workers(
    group: WaitGroup,
    turns: nat,
    tally: Tally,
    done: bool,
    worker: WaitGroup,
    ledger: Seq<CountEntry>,
    n: nat,
    i: int,
    j: int,
)
    requires
        group.is_counted(),
        worker.is_counted(),
        worker.counter() == group.counter(),
        tally.is_true(),
        tally.counter() == group.counter(),
        watches(turns, tally.log(), done),
        is_count_ledger(group.counter().count(), ledger, n),
        0 <= i < n,
        0 <= j < n,
        i != j,
        is_tally_of(group.tally(), ledger, i),
        is_tally_of(worker.tally(), ledger, j),
        ledger.len() > 0,
        tally.calls().len() > 0 ==> ledger.last().done == tally.calls().last(),
    ensures
        !done,
{
    let count = group.counter().count();
    lemma_standing(group.tally(), ledger, i);
    lemma_standing(worker.tally(), ledger, j);
    if done {
        let k = tally.log().len() - 1;
        assert(tally.calls()[k].found == tally.log()[k].found);
        assert(tally.log()[k].op == CountOp::Look);
        assert(tally.calls().last().call == CountCall::Load);
        one_is_alone(count, ledger, n, i, j);
    }
}

/// Waiting and counting the others leave the count as it is: whatever they find, they only look.
pub proof fn looks_change_nothing(count: usize, turns: nat, events: Seq<CountEvent>, done: bool)
    requires
        watches(turns, events, done),
    ensures
        left_by_calls(count, events.map_values(|event: CountEvent| counter::call_of(event.op)))
            == count,
    decreases events.len(),
{
    lemma_looks(count, events);
}

proof fn lemma_looks(count: usize, events: Seq<CountEvent>)
    requires
        forall|k: int| #![trigger events[k]] 0 <= k < events.len() ==> events[k].op == CountOp::Look,
    ensures
        left_by_calls(count, events.map_values(|event: CountEvent| counter::call_of(event.op)))
            == count,
    decreases events.len(),
{
    let calls = events.map_values(|event: CountEvent| counter::call_of(event.op));
    if events.len() > 0 {
        let before = events.drop_last();
        lemma_looks(count, before);
        assert(calls.drop_last() =~= before.map_values(
            |event: CountEvent| counter::call_of(event.op),
        ));
    }
}

/// Whether a handle is there, as a number.
pub open spec fn there<T>(handles: Seq<Option<Arc<T>>>) -> spec_fn(int) -> int {
    |i: int|
        if handles[i] is Some {
            1
        } else {
            0
        }
}

/// How many owners of the allocation each handle stands for.
pub open spec fn owning<T>(handles: Seq<Option<Arc<T>>>) -> spec_fn(int) -> int {
    |i: int|
        match handles[i] {
            Some(handle) => handle.tally().owners(),
            None => 0,
        }
}

/// Where `handles` are those that are there, by the traces of a ledger, the count, the handles and
/// the owners of what they share are equally many: each handle owns it once. So the handle that
/// finds the count at one is the last owner.
pub proof fn owners_are_the_handles<T>(
    count: SharedCount,
    ledger: Seq<CountEntry>,
    handles: Seq<Option<Arc<T>>>,
)
    requires
        is_count_ledger(count, ledger, handles.len()),
        forall|i: int| 0 <= i < handles.len() ==> match #[trigger] handles[i] {
            Some(handle) => {
                &&& handle.is_counted()
                &&& handle.counter().count() == count
                &&& is_tally_of(handle.tally(), ledger, i)
            },
            None => accounts(count, ledger)(i) == 0,
        },
    ensures
        count_left(count, ledger) == sum(handles.len(), there(handles)),
        count_left(count, ledger) == sum(handles.len(), owning(handles)),
{
    let n = handles.len();
    let held = accounts(count, ledger);
    counts_add_up(count, ledger, n);
    assert forall|i: int| 0 <= i < n && i != -1 implies #[trigger] held(i) == there(handles)(i)
        && held(i) == owning(handles)(i) by {
        if let Some(handle) = handles[i] {
            lemma_standing(handle.tally(), ledger, i);
        }
    }
    lemma_sum_change(n, held, there(handles), -1);
    lemma_sum_change(n, held, owning(handles), -1);
}

} // verus!
