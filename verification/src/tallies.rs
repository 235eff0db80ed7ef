//! What the handles of one counter come to, in the order in which the count has seen them.
//!
//! Each handle has a tally of what was done to the count for it. A history is all of these events
//! in one order. That an operation finds the count that the one before it left is what makes the
//! operations on the count atomic.
use vstd::prelude::*;

use crate::cells::{leaves_count, CountCall};
use crate::counter::{
    call_of, event, goes_down, is_counted, operations_are_their_calls, others_of, watches,
    CountEvent, CountOp, Counter, Tally,
};
use crate::handles::{
    is_enabled, is_execution, is_sound, lemma_executions, living, looks_count_the_others, take,
    HandleStep, Handles,
};
use crate::wait_group::WaitGroup;

verus! {

/// One event in the life of one handle. The handles are numbered in the order in which they are
/// made. A clone is made of the handle `from`, which says nothing of other events.
pub ghost struct Moment {
    pub handle: int,
    pub what: CountEvent,
    pub from: int,
}

/// What was done to the count for one handle, as its tally has it. Looks have tallies of their own.
pub open spec fn log_of(history: Seq<Moment>, handle: int) -> Seq<CountEvent>
    decreases history.len(),
{
    if history.len() == 0 {
        Seq::empty()
    } else {
        let before = log_of(history.drop_last(), handle);
        let last = history.last();
        if last.handle == handle && last.what.op != CountOp::Look {
            before.push(last.what)
        } else {
            before
        }
    }
}

/// How many handles have been made.
pub open spec fn made(history: Seq<Moment>) -> int
    decreases history.len(),
{
    if history.len() == 0 {
        1
    } else {
        made(history.drop_last()) + if history.last().what.op == CountOp::Up {
            1int
        } else {
            0
        }
    }
}

/// The count after a history.
pub open spec fn count_after(shared: Counter, history: Seq<Moment>) -> usize
    decreases history.len(),
{
    if history.len() == 0 {
        shared.first()
    } else {
        crate::counter::apply(
            history.last().what.op,
            count_after(shared, history.drop_last()),
        )
    }
}

/// The calls on the count in a history.
pub open spec fn calls_in(history: Seq<Moment>) -> Seq<CountCall> {
    history.map_values(|moment: Moment| call_of(moment.what.op))
}

/// What calls on a count that was made with `first` leave, one after the other.
pub open spec fn left_by_calls(first: usize, calls: Seq<CountCall>) -> usize
    decreases calls.len(),
{
    if calls.len() == 0 {
        first
    } else {
        leaves_count(calls.last(), left_by_calls(first, calls.drop_last()))
    }
}

/// The count after a history is what the calls in it leave.
pub proof fn counts_are_left_by_the_calls(shared: Counter, history: Seq<Moment>)
    ensures
        count_after(shared, history) == left_by_calls(shared.first(), calls_in(history)),
    decreases history.len(),
{
    if history.len() > 0 {
        let before = history.drop_last();
        counts_are_left_by_the_calls(shared, before);
        operations_are_their_calls(history.last().what.op, count_after(shared, before));
        assert(calls_in(history).drop_last() =~= calls_in(before));
    }
}

/// The handle is there after the history: it has been made and, by its tally, not been given up.
pub open spec fn is_there(history: Seq<Moment>, handle: int) -> bool {
    let log = log_of(history, handle);
    &&& 0 <= handle < made(history)
    &&& is_counted(log)
    &&& log.len() == 0 <==> handle == 0
}

/// A history of the handles that share a counter. Every operation finds the count that the ones
/// before it have left, only a handle that is there is cloned, given up or used to look, and the
/// count has room for a clone. The counter was made for one handle, as every counter is.
pub open spec fn is_history(shared: Counter, history: Seq<Moment>) -> bool
    decreases history.len(),
{
    let before = history.drop_last();
    let last = history.last();
    &&& shared.first() == 1
    &&& history.len() > 0 ==> {
        &&& is_history(shared, before)
        &&& last.what.found == count_after(shared, before)
        &&& match last.what.op {
            CountOp::Up => {
                &&& last.handle == made(before)
                &&& is_there(before, last.from)
                &&& last.what.found < usize::MAX
            },
            CountOp::Down | CountOp::Leave => is_there(before, last.handle),
            CountOp::Look => is_there(before, last.handle),
        }
    }
}

/// What happens to the handles in one event.
pub open spec fn step_of(moment: Moment) -> HandleStep {
    match moment.what.op {
        CountOp::Up => HandleStep::Clone { handle: moment.from },
        CountOp::Down | CountOp::Leave => HandleStep::Drop { handle: moment.handle },
        CountOp::Look => HandleStep::Look { handle: moment.handle },
    }
}

/// The handles after a history.
pub open spec fn handles_after(shared: Counter, history: Seq<Moment>) -> Handles
    decreases history.len(),
{
    if history.len() == 0 {
        Handles { count: shared.first(), live: seq![true], over: false }
    } else {
        take(handles_after(shared, history.drop_last()), step_of(history.last()))
    }
}

/// What happens to the handles in a history is what can happen to them, and afterwards the handles
/// are there that, by their tallies, have been made and not been given up.
pub proof fn tallies_come_to_executions(shared: Counter, history: Seq<Moment>)
    requires
        is_history(shared, history),
    ensures
        is_execution(
            shared,
            Seq::new(
                history.len() + 1,
                |k: int| handles_after(shared, history.take(k)),
            ),
            Seq::new(history.len(), |k: int| step_of(history[k])),
        ),
        handles_after(shared, history).count == count_after(shared, history),
        handles_after(shared, history).live.len() == made(history),
        forall|h: int|
            0 <= h < made(history) ==> #[trigger] handles_after(shared, history).live[h]
                == is_there(history, h),
{
    let states = Seq::new(history.len() + 1, |k: int| handles_after(shared, history.take(k)));
    let steps = Seq::new(history.len(), |k: int| step_of(history[k]));
    lemma_handles(shared, history);
    assert forall|k: int| #![trigger steps[k]] 0 <= k < steps.len() implies is_enabled(
        states[k],
        steps[k],
    ) && states[k + 1] == take(states[k], steps[k]) by {
        let so_far = history.take(k + 1);
        lemma_prefix(shared, history, k + 1);
        lemma_handles(shared, so_far);
        assert(so_far.drop_last() =~= history.take(k));
        assert(so_far.last() == history[k]);
    }
    assert(history.take(0) =~= Seq::<Moment>::empty());
}

/// The beginning of a history is a history.
proof fn lemma_prefix(shared: Counter, history: Seq<Moment>, k: int)
    requires
        is_history(shared, history),
        0 <= k <= history.len(),
    ensures
        is_history(shared, history.take(k)),
    decreases history.len(),
{
    if k == history.len() {
        assert(history.take(k) =~= history);
    } else {
        assert(history.take(k) =~= history.drop_last().take(k));
        lemma_prefix(shared, history.drop_last(), k);
    }
}

/// The handles after a history are those that their tallies say are there, and the last event can
/// happen to them.
proof fn lemma_handles(shared: Counter, history: Seq<Moment>)
    requires
        is_history(shared, history),
    ensures
        ({
            let s = handles_after(shared, history);
            &&& s.count == count_after(shared, history)
            &&& s.live.len() == made(history)
            &&& forall|h: int|
                0 <= h < made(history) ==> #[trigger] s.live[h] == is_there(history, h)
            &&& forall|h: int| h >= made(history) ==> #[trigger] log_of(history, h).len() == 0
            &&& history.len() > 0 ==> is_enabled(
                handles_after(shared, history.drop_last()),
                step_of(history.last()),
            )
        }),
    decreases history.len(),
{
    if history.len() > 0 {
        let before = history.drop_last();
        let last = history.last();
        let s = handles_after(shared, before);
        let t = handles_after(shared, history);
        lemma_handles(shared, before);
        assert forall|h: int| h >= made(history) implies #[trigger] log_of(history, h).len()
            == 0 by {
            assert(log_of(before, h).len() == 0);
        }
        assert forall|h: int| 0 <= h < made(history) implies #[trigger] t.live[h] == is_there(
            history,
            h,
        ) by {
            if h < made(before) {
                assert(s.live[h] == is_there(before, h));
            } else {
                assert(log_of(before, h).len() == 0);
                assert(made(before) >= 1);
            }
        }
    }
}

/// Which of the handles that have been made are there and not `handle`.
pub open spec fn others(history: Seq<Moment>, handle: int) -> Seq<bool> {
    Seq::new(made(history) as nat, |h: int| h != handle && is_there(history, h))
}

/// How many handles besides `handle` are there.
pub open spec fn others_there(history: Seq<Moment>, handle: int) -> nat {
    living(others(history, handle))
}

/// After a history, the count is the number of the handles that are there.
proof fn lemma_counted(shared: Counter, history: Seq<Moment>)
    requires
        is_history(shared, history),
    ensures
        is_sound(handles_after(shared, history)),
{
    let states = Seq::new(history.len() + 1, |k: int| handles_after(shared, history.take(k)));
    let steps = Seq::new(history.len(), |k: int| step_of(history[k]));
    tallies_come_to_executions(shared, history);
    lemma_executions(shared, states, steps, history.len() as int);
    assert(history.take(history.len() as int) =~= history);
}

/// What a handle finds that looks at the count or is given up, and who was there then.
proof fn lemma_found(shared: Counter, history: Seq<Moment>, k: int)
    requires
        is_history(shared, history),
        0 <= k < history.len(),
        history[k].what.op != CountOp::Up,
    ensures
        ({
            let then = history.take(k);
            let found = history[k].what.found;
            let handle = history[k].handle;
            &&& is_there(then, handle)
            &&& found >= 1
            &&& found - 1 == others_there(then, handle)
            &&& found == 1 <==> forall|h: int| h != handle ==> !#[trigger] is_there(then, h)
        }),
{
    let then = history.take(k);
    let handle = history[k].handle;
    let s = handles_after(shared, then);
    let now = history.take(k + 1);
    lemma_prefix(shared, history, k + 1);
    assert(now.drop_last() =~= then);
    assert(now.last() == history[k]);
    lemma_handles(shared, then);
    lemma_counted(shared, then);
    assert(s.live[handle] == is_there(then, handle));
    looks_count_the_others(s, handle);
    assert(s.live.update(handle, false) =~= others(then, handle));
    if s.count == 1 {
        assert forall|h: int| h != handle implies !#[trigger] is_there(then, h) by {
            if 0 <= h < made(then) {
                assert(!s.live[h]);
            }
        }
    } else if forall|h: int| h != handle ==> !#[trigger] is_there(then, h) {
        assert forall|h: int| 0 <= h < s.live.len() && h != handle implies !#[trigger] s.live[h] by {
            assert(!is_there(then, h));
        }
    }
}

/// A handle that is gone stays gone.
pub proof fn handles_do_not_come_back(shared: Counter, history: Seq<Moment>, k: int, handle: int)
    requires
        is_history(shared, history),
        0 <= k <= history.len(),
        0 <= handle < made(history.take(k)),
        !is_there(history.take(k), handle),
    ensures
        !is_there(history, handle),
    decreases history.len(),
{
    if k == history.len() {
        assert(history.take(k) =~= history);
    } else {
        let before = history.drop_last();
        assert(before.take(k) =~= history.take(k));
        handles_do_not_come_back(shared, before, k, handle);
        lemma_made(history, k);
        lemma_made(before, k);
        lemma_handles(shared, before);
        lemma_handles(shared, history);
        let s = handles_after(shared, before);
        let t = handles_after(shared, history);
        assert(s.live[handle] == is_there(before, handle));
        assert(t.live[handle] == is_there(history, handle));
    }
}

/// No handle is unmade.
proof fn lemma_made(history: Seq<Moment>, k: int)
    requires
        0 <= k <= history.len(),
    ensures
        made(history.take(k)) <= made(history),
    decreases history.len(),
{
    if k == history.len() {
        assert(history.take(k) =~= history);
    } else {
        assert(history.drop_last().take(k) =~= history.take(k));
        lemma_made(history.drop_last(), k);
    }
}

/// The number of other handles that a group names, by the tally of its look, is the number of
/// those that were there when it looked.
pub proof fn groups_count_the_others(
    group: WaitGroup,
    others: usize,
    tally: Tally,
    history: Seq<Moment>,
    k: int,
)
    requires
        exists|found: usize|
            tally.log() == seq![#[trigger] event(CountOp::Look, found)] && others == others_of(
                found,
            ),
        is_history(group.counter(), history),
        0 <= k < history.len(),
        tally.log() == seq![history[k].what],
    ensures
        is_there(history.take(k), history[k].handle),
        others == others_there(history.take(k), history[k].handle),
{
    let found = choose|found: usize|
        tally.log() == seq![#[trigger] event(CountOp::Look, found)] && others == others_of(found);
    assert(tally.log()[0] == event(CountOp::Look, found));
    assert(history[k].what == event(CountOp::Look, found));
    lemma_found(group.counter(), history, k);
}

/// Once waiting has come to an end, by the tally of its looks, every other handle that had been
/// made by then is gone, and stays gone.
pub proof fn groups_wait_for_all_others(
    group: WaitGroup,
    turns: nat,
    tally: Tally,
    history: Seq<Moment>,
    k: int,
)
    requires
        watches(turns, tally.log(), true),
        is_history(group.counter(), history),
        0 <= k < history.len(),
        tally.log().last() == history[k].what,
    ensures
        is_there(history.take(k), history[k].handle),
        forall|h: int|
            0 <= h < made(history.take(k)) && h != history[k].handle ==> !#[trigger] is_there(
                history,
                h,
            ),
{
    let last = tally.log()[tally.log().len() - 1];
    assert(last.op == CountOp::Look);
    lemma_found(group.counter(), history, k);
    assert forall|h: int| 0 <= h < made(history.take(k)) && h != history[k].handle implies
        !#[trigger] is_there(history, h) by {
        assert(!is_there(history.take(k), h));
        handles_do_not_come_back(group.counter(), history, k, h);
    }
}

/// A handle that is given up finds itself the last one exactly if no handle is there afterwards,
/// and nothing comes after that.
pub proof fn the_last_handle_knows(shared: Counter, history: Seq<Moment>, k: int)
    requires
        is_history(shared, history),
        0 <= k < history.len(),
        goes_down(history[k].what.op),
    ensures
        history[k].what.found == 1 <==> forall|h: int|
            !#[trigger] is_there(history.take(k + 1), h),
        history[k].what.found == 1 ==> k + 1 == history.len(),
{
    let then = history.take(k);
    let now = history.take(k + 1);
    let handle = history[k].handle;
    let s = handles_after(shared, then);
    let t = handles_after(shared, now);
    lemma_found(shared, history, k);
    lemma_prefix(shared, history, k);
    lemma_prefix(shared, history, k + 1);
    lemma_handles(shared, then);
    lemma_handles(shared, now);
    assert(now.drop_last() =~= then);
    assert(now.last() == history[k]);
    assert forall|h: int| #[trigger] is_there(now, h) == (is_there(then, h) && h != handle) by {
        if 0 <= h < made(then) {
            assert(s.live[h] == is_there(then, h));
            assert(t.live[h] == is_there(now, h));
        }
    }
    if history[k].what.found == 1 {
        if k + 1 < history.len() {
            let next = history.take(k + 2);
            lemma_prefix(shared, history, k + 2);
            assert(next.drop_last() =~= now);
            assert(next.last() == history[k + 1]);
            assert(!is_there(now, history[k + 1].handle));
            assert(!is_there(now, history[k + 1].from));
        }
    } else if forall|h: int| !#[trigger] is_there(now, h) {
        assert forall|h: int| h != handle implies !#[trigger] is_there(then, h) by {
            assert(!is_there(now, h));
        }
    }
}

} // verus!
