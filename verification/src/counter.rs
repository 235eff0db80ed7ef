//! A count of the handles to something shared.
use std::sync::atomic::Ordering;
use vstd::prelude::*;

use crate::cells;
use crate::cells::{joining, CountTrace, SharedCount};

verus! {

/// An atomic operation on a count.
#[derive(Clone, Copy, PartialEq, Eq, Structural, Debug)]
pub enum CountOp {
    /// Counts one handle more.
    Up,
    /// Counts one handle less, and sees what the handles that went before have done.
    Down,
    /// Counts one handle less.
    Leave,
    /// Changes nothing.
    Look,
}

/// One operation that was performed on a count, and the count that it found.
pub ghost struct CountEvent {
    pub op: CountOp,
    pub found: usize,
}

/// The call on the atomic integer that performs `op`.
pub open spec fn call_of(op: CountOp) -> cells::CountCall {
    match op {
        CountOp::Up => cells::CountCall::Add(1),
        CountOp::Down => cells::CountCall::Sub(1),
        CountOp::Leave => cells::CountCall::Sub(1),
        CountOp::Look => cells::CountCall::Load,
    }
}

/// The memory order of the call that performs `op`.
pub open spec fn order_for(op: CountOp) -> cells::Order {
    match op {
        CountOp::Up => cells::Order::Release,
        CountOp::Down => cells::Order::Acquire,
        CountOp::Leave => cells::Order::Relaxed,
        CountOp::Look => cells::Order::Acquire,
    }
}

/// The calls on the shared count `shared` that perform the events of a log.
pub open spec fn calls_of(shared: SharedCount, log: Seq<CountEvent>) -> Seq<cells::CountDone> {
    log.map_values(
        |event: CountEvent|
            cells::CountDone {
                count: shared,
                call: call_of(event.op),
                order: order_for(event.op),
                found: event.found,
            },
    )
}

/// The operation counts one handle less.
pub open spec fn goes_down(op: CountOp) -> bool {
    op == CountOp::Down || op == CountOp::Leave
}

/// The count that `op` leaves where it found `count`. Counting wraps around at the ends.
pub open spec fn apply(op: CountOp, count: usize) -> usize {
    match op {
        CountOp::Up => if count == usize::MAX {
            0
        } else {
            (count + 1) as usize
        },
        CountOp::Down | CountOp::Leave => if count == 0 {
            usize::MAX
        } else {
            (count - 1) as usize
        },
        CountOp::Look => count,
    }
}

/// Each operation leaves what the call that performs it leaves.
pub proof fn operations_are_their_calls(op: CountOp, count: usize)
    ensures
        apply(op, count) == cells::leaves_count(call_of(op), count),
{
    let all = usize::MAX + 1;
    if op == CountOp::Up && count < usize::MAX {
        vstd::arithmetic::div_mod::lemma_small_mod((count + 1) as nat, all as nat);
    } else if op == CountOp::Up {
        vstd::arithmetic::div_mod::lemma_mod_self_0(all);
    } else if goes_down(op) && count > 0 {
        vstd::arithmetic::div_mod::lemma_small_mod((count - 1) as nat, all as nat);
    } else if goes_down(op) {
        vstd::arithmetic::div_mod::lemma_mod_add_multiples_vanish(-1, all);
        vstd::arithmetic::div_mod::lemma_small_mod((all - 1) as nat, all as nat);
    }
}

/// The event of performing `op` and finding `found`.
pub open spec fn event(op: CountOp, found: usize) -> CountEvent {
    CountEvent { op, found }
}

/// What is done to the count for a handle that is there: nothing for the first one, and one step up
/// for every other.
pub open spec fn is_counted(log: Seq<CountEvent>) -> bool {
    log.len() == 0 || (log.len() == 1 && log[0].op == CountOp::Up)
}

/// How many handles the events of a log have counted, less those that they have counted down.
pub open spec fn balance(log: Seq<CountEvent>) -> int
    decreases log.len(),
{
    if log.len() == 0 {
        0
    } else {
        let before = balance(log.drop_last());
        match log.last().op {
            CountOp::Up => before + 1,
            CountOp::Down | CountOp::Leave => before - 1,
            CountOp::Look => before,
        }
    }
}

/// How many handles there are besides one's own when the count is `found`.
pub open spec fn others_of(found: usize) -> usize {
    if found == 0 {
        0
    } else {
        (found - 1) as usize
    }
}

/// Whether the handle that is dropped when the count is `found` is the last one.
pub fn is_last(found: usize) -> (r: bool)
    ensures
        r == (found == 1),
    opens_invariants none
    no_unwind
{
    found == 1
}

/// How many handles there are besides one's own when the count is `found`. One's own handle is
/// counted, so the count is never zero.
pub fn others(found: usize) -> (r: usize)
    ensures
        r == others_of(found),
    opens_invariants none
    no_unwind
{
    if found == 0 {
        0
    } else {
        found - 1
    }
}

/// `events` is what a handle does that looks at the count at most `turns` times until it is the
/// only one left: every look but the last finds others, and the last one finds none if `done`.
pub open spec fn watches(turns: nat, events: Seq<CountEvent>, done: bool) -> bool {
    &&& events.len() <= turns
    &&& forall|k: int| #![trigger events[k]] 0 <= k < events.len() ==> events[k].op == CountOp::Look
    &&& if done {
        &&& events.len() > 0
        &&& events.last().found == 1
        &&& forall|k: int|
            #![trigger events[k]]
            0 <= k < events.len() - 1 ==> events[k].found != 1
    } else {
        &&& events.len() == turns
        &&& forall|k: int| #![trigger events[k]] 0 <= k < events.len() ==> events[k].found != 1
    }
}

/// Waiting for at most `turns` looks has made the log `before` into `later`.
pub open spec fn waits(
    turns: nat,
    before: Seq<CountEvent>,
    later: Seq<CountEvent>,
    done: bool,
) -> bool {
    exists|events: Seq<CountEvent>| #[trigger]
        watches(turns, events, done) && later == before + events
}

/// What a log has counted is what its calls have added.
pub proof fn lemma_balance(shared: SharedCount, log: Seq<CountEvent>)
    ensures
        cells::added(calls_of(shared, log), shared) == balance(log),
    decreases log.len(),
{
    if log.len() > 0 {
        lemma_balance(shared, log.drop_last());
        assert(calls_of(shared, log).drop_last() =~= calls_of(shared, log.drop_last()));
    }
}

/// The count that the handles share.
pub struct Counter {
    count: SharedCount,
}

/// What one handle has done to a count, and the calls on the shared count that it has made in doing
/// so. There is nothing in it when the program runs.
///
/// What an operation finds is up to all the threads that have a handle. The tally remembers it,
/// and the contracts say what is done for each count that may be found.
pub struct Tally {
    counter: Ghost<Counter>,
    log: Ghost<Seq<CountEvent>>,
    trace: CountTrace,
}

impl Tally {
    /// In whose name the operations are performed.
    pub closed spec fn name(&self) -> int {
        self.trace.name()
    }

    /// How many handles were counted for the tally before anything was done.
    pub closed spec fn lent(&self) -> int {
        self.trace.lent(self.counter@.count())
    }

    /// How many owners of memory there are for the handles of this tally.
    pub closed spec fn owners(&self) -> int {
        self.trace.owners()
    }

    /// How many handles are counted for this tally.
    pub open spec fn standing(&self) -> int {
        self.lent() + balance(self.log())
    }

    /// What a function lists that performs `op` for this tally.
    pub open spec fn listed_for(&self, op: CountOp) -> Set<int> {
        if op == CountOp::Up {
            Set::empty().insert(joining(self.name()))
        } else {
            Set::empty()
        }
    }

    /// The two tallies are of one counter, and differ in what has been done at most.
    pub open spec fn is_like(&self, other: Tally) -> bool {
        &&& self.counter() == other.counter()
        &&& self.name() == other.name()
        &&& self.lent() == other.lent()
        &&& self.owners() == other.owners()
    }

    /// The counter that the tally is about.
    pub closed spec fn counter(&self) -> Counter {
        self.counter@
    }

    /// What has been done so far.
    pub closed spec fn log(&self) -> Seq<CountEvent> {
        self.log@
    }

    /// The calls that have been made.
    pub closed spec fn calls(&self) -> Seq<cells::CountDone> {
        self.trace.done()
    }

    /// The trace has, for each event in the log, the call on the count that performs it, and no
    /// other call.
    pub open spec fn is_true(&self) -> bool {
        self.calls() == calls_of(self.counter().count(), self.log())
    }

    #[verifier::type_invariant]
    spec fn is_always_true(self) -> bool {
        self.is_true()
    }
}

impl Counter {
    /// The shared count.
    pub closed spec fn count(&self) -> SharedCount {
        self.count
    }

    /// The count that the counter was made with.
    pub open spec fn first(&self) -> usize {
        self.count().first()
    }

    /// No handle rests on the count, so anybody may count down.
    pub open spec fn is_loose(&self) -> bool {
        self.count().is_loose()
    }

    /// The count of a first handle, for anybody to count with.
    pub fn new() -> (r: Counter)
        ensures
            r.first() == 1,
            r.is_loose(),
        opens_invariants none
        no_unwind
    {
        let (count, _) = SharedCount::new(1, true);
        Counter { count }
    }

    /// The count of a first handle, and the tally of that handle.
    pub(crate) fn with_handle() -> (r: (Counter, Tally))
        ensures
            r.0.first() == 1,
            !r.0.is_loose(),
            r.1.is_true(),
            r.1.counter() == r.0,
            r.1.log() == Seq::<CountEvent>::empty(),
            r.1.lent() == 1,
            r.1.owners() == 1,
        opens_invariants none
        no_unwind
    {
        let (count, trace) = SharedCount::new(1, false);
        let counter = Counter { count };
        assert(trace.done() =~= calls_of(counter.count(), Seq::<CountEvent>::empty()));
        let tally = Tally { counter: Ghost(counter), log: Ghost(Seq::empty()), trace };
        (counter, tally)
    }

    /// A tally of nothing.
    pub fn tally(&self) -> (r: Tally)
        ensures
            r.is_true(),
            r.counter() == *self,
            r.log() == Seq::<CountEvent>::empty(),
            r.lent() == 0,
            r.owners() == 0,
        opens_invariants none
        no_unwind
    {
        let trace = CountTrace::new();
        assert(trace.done() =~= calls_of(self.count(), Seq::<CountEvent>::empty()));
        Tally { counter: Ghost(*self), log: Ghost(Seq::empty()), trace }
    }

    /// Performs one operation on the count and returns the count that it found. Where handles rest
    /// on the count, only a handle that the tally counts is counted down.
    pub fn perform(&self, op: CountOp, tally: &mut Tally) -> (found: usize)
        requires
            old(tally).counter() == *self,
            goes_down(op) ==> self.is_loose() || old(tally).standing() >= 1,
        ensures
            final(tally).is_true(),
            final(tally).counter() == *self,
            final(tally).is_like(*old(tally)),
            final(tally).log() == old(tally).log().push(event(op, found)),
        opens_invariants old(tally).listed_for(op)
        no_unwind
    {
        let mut taken = self.tally();
        core::mem::swap(&mut taken, tally);
        proof {
            use_type_invariant(&taken);
            lemma_balance(self.count(), taken.log@);
        }
        let Tally { counter, log, trace } = taken;
        let mut trace = trace;
        let found: usize = match op {
            CountOp::Up => self.count.fetch_add(1, Ordering::Release, &mut trace),
            CountOp::Down => self.count.fetch_sub(1, Ordering::Acquire, &mut trace),
            CountOp::Leave => self.count.fetch_sub(1, Ordering::Relaxed, &mut trace),
            CountOp::Look => self.count.load(Ordering::Acquire, &mut trace),
        };
        assert(trace.done() =~= calls_of(self.count(), log@.push(event(op, found))));
        *tally = Tally { counter, log: Ghost(log@.push(event(op, found))), trace };
        found
    }

    /// How many handles there are besides one's own.
    pub fn waiting_on(&self, tally: &mut Tally) -> (r: usize)
        requires
            old(tally).counter() == *self,
        ensures
            final(tally).is_true(),
            final(tally).counter() == *self,
            final(tally).is_like(*old(tally)),
            exists|found: usize| #[trigger]
                others_of(found) == r && final(tally).log() == old(tally).log().push(
                    event(CountOp::Look, found),
                ),
        opens_invariants none
    {
        others(self.perform(CountOp::Look, tally))
    }

    /// Looks at the count at most `turns` times, until no other handle is counted, and says
    /// whether that came true.
    pub fn wait(&self, turns: u32, tally: &mut Tally) -> (done: bool)
        requires
            old(tally).counter() == *self,
        ensures
            final(tally).is_true(),
            final(tally).counter() == *self,
            final(tally).is_like(*old(tally)),
            waits(turns as nat, old(tally).log(), final(tally).log(), done),
        opens_invariants none
    {
        proof {
            use_type_invariant(&*tally);
        }
        let mut left: u32 = turns;
        let ghost mut events: Seq<CountEvent> = Seq::empty();
        assert(tally.log() =~= old(tally).log() + events);
        while left > 0
            invariant
                left <= turns,
                tally.is_true(),
                tally.counter() == *self,
                tally.is_like(*old(tally)),
                tally.log() == old(tally).log() + events,
                events.len() == turns - left,
                forall|k: int|
                    #![trigger events[k]]
                    0 <= k < events.len() ==> events[k].op == CountOp::Look && events[k].found != 1,
            decreases left,
        {
            let found: usize = self.perform(CountOp::Look, tally);
            proof {
                events = events.push(event(CountOp::Look, found));
                assert(tally.log() =~= old(tally).log() + events);
            }
            if found == 1 {
                assert(watches(turns as nat, events, true));
                return true;
            }
            core::hint::spin_loop();
            left = left - 1;
        }
        assert(watches(turns as nat, events, false));
        false
    }
}

/// The counter of a group of handles, as the handles see it: one can join the group, look at the
/// count, and leave as often as one has joined.
pub struct Roll {
    counter: Counter,
}

impl Roll {
    /// The counter of the handles.
    pub closed spec fn counter(&self) -> Counter {
        self.counter
    }

    #[verifier::type_invariant]
    spec fn is_relied_on(self) -> bool {
        !self.counter.is_loose()
    }

    /// The roll of a first handle, and the tally of that handle.
    pub(crate) fn new() -> (r: (Roll, Tally))
        ensures
            r.0.counter().first() == 1,
            !r.0.counter().is_loose(),
            r.1.is_true(),
            r.1.counter() == r.0.counter(),
            r.1.log() == Seq::<CountEvent>::empty(),
            r.1.standing() == 1,
            r.1.owners() == 1,
        opens_invariants none
        no_unwind
    {
        let (counter, tally) = Counter::with_handle();
        (Roll { counter }, tally)
    }

    /// A tally of nothing.
    pub(crate) fn tally(&self) -> (r: Tally)
        ensures
            r.is_true(),
            r.counter() == self.counter(),
            r.log() == Seq::<CountEvent>::empty(),
            r.lent() == 0,
            r.owners() == 0,
        opens_invariants none
        no_unwind
    {
        self.counter.tally()
    }

    /// Counts one handle more, and returns the tally of that handle.
    pub(crate) fn join(&self) -> (tally: Tally)
        ensures
            tally.is_true(),
            tally.counter() == self.counter(),
            !self.counter().is_loose(),
            tally.standing() == 1,
            tally.owners() == 0,
            exists|found: usize| tally.log() == seq![#[trigger] event(CountOp::Up, found)],
        opens_invariants cells::all_joining()
    {
        proof {
            use_type_invariant(self);
        }
        let mut tally = self.counter.tally();
        let found: usize = self.counter.perform(CountOp::Up, &mut tally);
        assert(tally.log() =~= seq![event(CountOp::Up, found)]);
        assert(tally.log().drop_last() =~= Seq::<CountEvent>::empty());
        assert(balance(Seq::<CountEvent>::empty()) == 0);
        tally
    }

    /// Counts down a handle that the tally counts, and returns the count that this found.
    pub(crate) fn leave(&self, op: CountOp, tally: &mut Tally) -> (found: usize)
        requires
            goes_down(op),
            old(tally).counter() == self.counter(),
            old(tally).standing() >= 1,
        ensures
            final(tally).is_true(),
            final(tally).is_like(*old(tally)),
            final(tally).log() == old(tally).log().push(event(op, found)),
        opens_invariants none
        no_unwind
    {
        self.counter.perform(op, tally)
    }

    /// How many handles there are besides one's own, and the tally of looking.
    pub(crate) fn waiting_on(&self) -> (r: (usize, Tally))
        ensures
            r.1.is_true(),
            r.1.counter() == self.counter(),
            r.1.owners() == 0,
            exists|found: usize|
                r.1.log() == seq![#[trigger] event(CountOp::Look, found)] && r.0 == others_of(
                    found,
                ),
        opens_invariants none
    {
        let mut tally = self.counter.tally();
        let others: usize = self.counter.waiting_on(&mut tally);
        proof {
            let found = choose|found: usize| #[trigger]
                others_of(found) == others && tally.log() == Seq::<CountEvent>::empty().push(
                    event(CountOp::Look, found),
                );
            assert(tally.log() =~= seq![event(CountOp::Look, found)]);
        }
        (others, tally)
    }

    /// Looks at most `turns` times whether there is no handle besides one's own, and says whether
    /// that came true. The tally has what the looks found.
    pub(crate) fn wait(&self, turns: u32) -> (r: (bool, Tally))
        ensures
            r.1.is_true(),
            r.1.counter() == self.counter(),
            r.1.owners() == 0,
            watches(turns as nat, r.1.log(), r.0),
        opens_invariants none
    {
        let mut tally = self.counter.tally();
        let done: bool = self.counter.wait(turns, &mut tally);
        proof {
            let events = choose|events: Seq<CountEvent>| #[trigger]
                watches(turns as nat, events, done) && tally.log() == Seq::<CountEvent>::empty()
                    + events;
            assert(tally.log() =~= events);
        }
        (done, tally)
    }
}

} // verus!
