//! The atomic integers of `std`, with a record of what is called on them.
//!
//! What a call finds is up to all the threads that share the integer, so no contract says what it
//! is. Instead every call is written down: on what it was made, which one it was, with which
//! operand and memory order, and what it found. The record can be carried around and read in
//! contracts, and nothing but the calls in here adds to it.
//!
//! A record says what was done with it. That nothing else was done besides is said by what a call
//! asks for. A call that gives something back asks that the same record shows it taken: nobody
//! subtracts what it has not added or clears a flag that it has not set. A call that takes
//! something is made in the name of its record, and a function that does not list this name among
//! those that it acts in (`opens_invariants`) cannot make it. A new record has a name that nobody
//! knows, so what a function is handed to act with is all that it can act with. Somebody who comes
//! to a lock on an [`Errand`] acts in the name of the errand, and only the call that is for it
//! lists that name.
use std::sync::atomic::AtomicU64;
use std::sync::atomic::AtomicUsize;
use std::sync::atomic::Ordering;
use vstd::prelude::*;

verus! {

/// The memory order of a call.
pub ghost enum Order {
    Relaxed,
    Acquire,
    Release,
    AcquireRelease,
    SeqCst,
}

/// The memory order that `std` calls `order`.
pub open spec fn order_of(order: Ordering) -> Order {
    match order {
        Ordering::Relaxed => Order::Relaxed,
        Ordering::Acquire => Order::Acquire,
        Ordering::Release => Order::Release,
        Ordering::AcqRel => Order::AcquireRelease,
        _ => Order::SeqCst,
    }
}

/// A call on an atomic `u64`, with its operand.
pub ghost enum WordCall {
    /// `fetch_add`
    Add(u64),
    /// `fetch_sub`
    Sub(u64),
    /// `fetch_or`
    Or(u64),
    /// `fetch_xor`
    Xor(u64),
    /// `load`
    Load,
}

/// A call on an atomic `usize`, with its operand.
pub ghost enum CountCall {
    /// `fetch_add`
    Add(usize),
    /// `fetch_sub`
    Sub(usize),
    /// `load`
    Load,
}

/// The `u64` that a call leaves where it found `bits`. Adding and subtracting wrap around.
pub open spec fn leaves_word(call: WordCall, bits: u64) -> u64 {
    match call {
        WordCall::Add(n) => ((bits + n) % 0x1_0000_0000_0000_0000) as u64,
        WordCall::Sub(n) => ((bits - n) % 0x1_0000_0000_0000_0000) as u64,
        WordCall::Or(n) => bits | n,
        WordCall::Xor(n) => bits ^ n,
        WordCall::Load => bits,
    }
}

/// The `usize` that a call leaves where it found `count`. Adding and subtracting wrap around.
pub open spec fn leaves_count(call: CountCall, count: usize) -> usize {
    match call {
        CountCall::Add(n) => ((count + n) % (usize::MAX + 1)) as usize,
        CountCall::Sub(n) => ((count - n) % (usize::MAX + 1)) as usize,
        CountCall::Load => count,
    }
}

/// A call that was made on a [`SharedWord`], and what it found.
pub ghost struct WordDone {
    pub word: SharedWord,
    pub call: WordCall,
    pub order: Order,
    pub found: u64,
}

/// A call that was made on a [`SharedCount`], and what it found.
pub ghost struct CountDone {
    pub count: SharedCount,
    pub call: CountCall,
    pub order: Order,
    pub found: usize,
}

/// An atomic `u64`, and what it was made with.
pub struct SharedWord {
    bits: AtomicU64,
    first: Ghost<u64>,
}

/// An atomic `usize`, and what it was made with.
pub struct SharedCount {
    count: AtomicUsize,
    first: Ghost<usize>,
    loose: Ghost<bool>,
}

/// What somebody comes to a lock for.
#[derive(Clone, Copy, PartialEq, Eq, Structural, Debug)]
pub enum Errand {
    /// To read, and to wait for that.
    Read,
    /// To read at once or not at all.
    TryRead,
    /// To write, and to wait for that.
    Write,
    /// To write at once or not at all.
    TryWrite,
}

/// The name of those who come on an errand.
pub open spec fn name_of(errand: Errand) -> int {
    match errand {
        Errand::Read => 0,
        Errand::TryRead => 1,
        Errand::Write => 2,
        Errand::TryWrite => 3,
    }
}

/// What a function lists that adds to a word in this name.
pub open spec fn arriving(name: int) -> int {
    4 * name
}

/// What a function lists that sets flags of a word in this name.
pub open spec fn claiming(name: int) -> int {
    4 * name + 1
}

/// What a function lists that adds to a count in this name.
pub open spec fn joining(name: int) -> int {
    4 * name + 2
}

/// All that is listed for adding to a count, in whatever name.
pub open spec fn all_joining() -> Set<int> {
    Set::new(|listed: int| listed % 4 == 2)
}

/// What the calls have added to `word` and not subtracted again.
pub open spec fn arrivals(done: Seq<WordDone>, word: SharedWord) -> int
    decreases done.len(),
{
    if done.len() == 0 {
        0
    } else {
        let before = arrivals(done.drop_last(), word);
        let last = done.last();
        match last.call {
            WordCall::Add(n) if last.word == word => before + n,
            WordCall::Sub(n) if last.word == word => before - n,
            _ => before,
        }
    }
}

/// The flags of `word` that the calls have found clear and set, and not flipped again.
pub open spec fn flags(done: Seq<WordDone>, word: SharedWord) -> Set<u64>
    decreases done.len(),
{
    if done.len() == 0 {
        Set::empty()
    } else {
        let before = flags(done.drop_last(), word);
        let last = done.last();
        match last.call {
            WordCall::Or(n) if last.word == word && last.found & n == 0 => before.insert(n),
            WordCall::Xor(n) if last.word == word => before.remove(n),
            _ => before,
        }
    }
}

/// What the calls have added to `count`, less what they have subtracted.
pub open spec fn added(done: Seq<CountDone>, count: SharedCount) -> int
    decreases done.len(),
{
    if done.len() == 0 {
        0
    } else {
        let before = added(done.drop_last(), count);
        let last = done.last();
        match last.call {
            CountCall::Add(n) if last.count == count => before + n,
            CountCall::Sub(n) if last.count == count => before - n,
            _ => before,
        }
    }
}

/// The calls that were made on shared words in one name, in order. There is nothing in it when the
/// program runs.
pub struct WordTrace {
    name: Ghost<int>,
    done: Ghost<Seq<WordDone>>,
}

/// The calls that were made on shared counts in one name, in order, and what was there to begin
/// with. There is nothing in it when the program runs.
pub struct CountTrace {
    name: Ghost<int>,
    done: Ghost<Seq<CountDone>>,
    lent: Ghost<Map<SharedCount, int>>,
    owners: Ghost<int>,
}

impl WordTrace {
    /// Whose calls these are.
    pub closed spec fn name(&self) -> int {
        self.name@
    }

    /// The calls that were made.
    pub closed spec fn done(&self) -> Seq<WordDone> {
        self.done@
    }

    /// The trace of no call. Nothing is known of the name.
    pub fn new() -> (r: WordTrace)
        ensures
            r.done() == Seq::<WordDone>::empty(),
        opens_invariants none
        no_unwind
    {
        WordTrace { name: Ghost(vstd::pervasive::arbitrary()), done: Ghost(Seq::empty()) }
    }

    /// The trace of no call, of somebody who comes on an errand.
    pub(crate) fn on(errand: Errand) -> (r: WordTrace)
        ensures
            r.name() == name_of(errand),
            r.done() == Seq::<WordDone>::empty(),
        opens_invariants none
        no_unwind
    {
        WordTrace { name: Ghost(name_of(errand)), done: Ghost(Seq::empty()) }
    }
}

impl CountTrace {
    /// Whose calls these are.
    pub closed spec fn name(&self) -> int {
        self.name@
    }

    /// The calls that were made.
    pub closed spec fn done(&self) -> Seq<CountDone> {
        self.done@
    }

    /// What of `count` was there to begin with.
    pub closed spec fn lent(&self, count: SharedCount) -> int {
        if self.lent@.contains_key(count) {
            self.lent@[count]
        } else {
            0
        }
    }

    /// How many owners of memory have come of what is counted here.
    pub closed spec fn owners(&self) -> int {
        self.owners@
    }

    /// How much of `count` this trace accounts for.
    pub open spec fn held(&self, count: SharedCount) -> int {
        self.lent(count) + added(self.done(), count)
    }

    /// The two traces differ in the calls at most.
    pub open spec fn is_like(&self, other: CountTrace) -> bool {
        &&& self.name() == other.name()
        &&& self.owners() == other.owners()
        &&& forall|count: SharedCount| #[trigger] self.lent(count) == other.lent(count)
    }

    /// The trace of no call. Nothing is known of the name.
    pub fn new() -> (r: CountTrace)
        ensures
            r.done() == Seq::<CountDone>::empty(),
            r.owners() == 0,
            forall|count: SharedCount| #[trigger] r.lent(count) == 0,
        opens_invariants none
        no_unwind
    {
        CountTrace {
            name: Ghost(vstd::pervasive::arbitrary()),
            done: Ghost(Seq::empty()),
            lent: Ghost(Map::empty()),
            owners: Ghost(0),
        }
    }
}

impl SharedWord {
    /// What the word was made with.
    pub closed spec fn first(&self) -> u64 {
        self.first@
    }

    /// `AtomicU64::new`: an atomic integer that holds `bits` to begin with, as it records.
    #[verifier::external_body]
    pub(crate) fn new(bits: u64) -> (r: SharedWord)
        ensures
            r.first() == bits,
        opens_invariants none
        no_unwind
    {
        SharedWord { bits: AtomicU64::new(bits), first: Ghost(bits) }
    }

    /// `AtomicU64::fetch_add`: adds `n` and returns what was there before. The call, with its
    /// operand, its order and what it found, is added to the trace.
    #[verifier::external_body]
    pub(crate) fn fetch_add(&self, n: u64, order: Ordering, trace: &mut WordTrace) -> (found: u64)
        ensures
            final(trace).name() == old(trace).name(),
            final(trace).done() == old(trace).done().push(
                (WordDone {
                    word: *self,
                    call: WordCall::Add(n),
                    order: order_of(order),
                    found,
                }),
            ),
        opens_invariants [arriving(old(trace).name())]
        no_unwind
    {
        self.bits.fetch_add(n, order)
    }

    /// `AtomicU64::fetch_sub`: subtracts `n` and returns what was there before. The call, with its
    /// operand, its order and what it found, is added to the trace, which has to show that `n` was
    /// added before.
    #[verifier::external_body]
    pub(crate) fn fetch_sub(&self, n: u64, order: Ordering, trace: &mut WordTrace) -> (found: u64)
        requires
            n <= arrivals(old(trace).done(), *self),
        ensures
            final(trace).name() == old(trace).name(),
            final(trace).done() == old(trace).done().push(
                (WordDone {
                    word: *self,
                    call: WordCall::Sub(n),
                    order: order_of(order),
                    found,
                }),
            ),
        opens_invariants none
        no_unwind
    {
        self.bits.fetch_sub(n, order)
    }

    /// `AtomicU64::fetch_or`: sets the bits of `n` and returns what was there before. The call,
    /// with its operand, its order and what it found, is added to the trace.
    #[verifier::external_body]
    pub(crate) fn fetch_or(&self, n: u64, order: Ordering, trace: &mut WordTrace) -> (found: u64)
        ensures
            final(trace).name() == old(trace).name(),
            final(trace).done() == old(trace).done().push(
                (WordDone { word: *self, call: WordCall::Or(n), order: order_of(order), found }),
            ),
        opens_invariants [claiming(old(trace).name())]
        no_unwind
    {
        self.bits.fetch_or(n, order)
    }

    /// `AtomicU64::fetch_xor`: flips the bits of `n` and returns what was there before. The call,
    /// with its operand, its order and what it found, is added to the trace, which has to show that
    /// they were found clear and set before.
    #[verifier::external_body]
    pub(crate) fn fetch_xor(&self, n: u64, order: Ordering, trace: &mut WordTrace) -> (found: u64)
        requires
            flags(old(trace).done(), *self).contains(n),
        ensures
            final(trace).name() == old(trace).name(),
            final(trace).done() == old(trace).done().push(
                (WordDone { word: *self, call: WordCall::Xor(n), order: order_of(order), found }),
            ),
        opens_invariants none
        no_unwind
    {
        self.bits.fetch_xor(n, order)
    }

    /// `AtomicU64::load`: returns what is there. The call, with its order and what it found, is
    /// added to the trace. `load` panics for the two orders that release.
    #[verifier::external_body]
    pub(crate) fn load(&self, order: Ordering, trace: &mut WordTrace) -> (found: u64)
        requires
            order_of(order) != Order::Release,
            order_of(order) != Order::AcquireRelease,
        ensures
            final(trace).name() == old(trace).name(),
            final(trace).done() == old(trace).done().push(
                (WordDone { word: *self, call: WordCall::Load, order: order_of(order), found }),
            ),
        opens_invariants none
        no_unwind
    {
        self.bits.load(order)
    }
}

impl SharedCount {
    /// What the count was made with.
    pub closed spec fn first(&self) -> usize {
        self.first@
    }

    /// Nothing rests on the count, so anybody may subtract from it.
    pub closed spec fn is_loose(&self) -> bool {
        self.loose@
    }

    /// `AtomicUsize::new`: an atomic integer that holds `count` to begin with, as it records. The
    /// trace that comes with it is the one that accounts for this.
    #[verifier::external_body]
    pub(crate) fn new(count: usize, loose: bool) -> (r: (SharedCount, CountTrace))
        ensures
            r.0.first() == count,
            r.0.is_loose() == loose,
            r.1.done() == Seq::<CountDone>::empty(),
            r.1.lent(r.0) == count,
            r.1.owners() == count,
        opens_invariants none
        no_unwind
    {
        let made = SharedCount {
            count: AtomicUsize::new(count),
            first: Ghost(count),
            loose: Ghost(loose),
        };
        let trace = CountTrace {
            name: Ghost(vstd::pervasive::arbitrary()),
            done: Ghost(Seq::empty()),
            lent: Ghost(Map::empty().insert(made, count as int)),
            owners: Ghost(count as int),
        };
        (made, trace)
    }

    /// `AtomicUsize::fetch_add`: adds `n` and returns what was there before. The call, with its
    /// operand, its order and what it found, is added to the trace.
    #[verifier::external_body]
    pub(crate) fn fetch_add(&self, n: usize, order: Ordering, trace: &mut CountTrace) -> (found:
        usize)
        ensures
            final(trace).is_like(*old(trace)),
            final(trace).done() == old(trace).done().push(
                (CountDone {
                    count: *self,
                    call: CountCall::Add(n),
                    order: order_of(order),
                    found,
                }),
            ),
        opens_invariants [joining(old(trace).name())]
        no_unwind
    {
        self.count.fetch_add(n, order)
    }

    /// `AtomicUsize::fetch_sub`: subtracts `n` and returns what was there before. The call, with
    /// its operand, its order and what it found, is added to the trace, which has to account for
    /// `n` unless the count is loose.
    #[verifier::external_body]
    pub(crate) fn fetch_sub(&self, n: usize, order: Ordering, trace: &mut CountTrace) -> (found:
        usize)
        requires
            self.is_loose() || n <= old(trace).held(*self),
        ensures
            final(trace).is_like(*old(trace)),
            final(trace).done() == old(trace).done().push(
                (CountDone {
                    count: *self,
                    call: CountCall::Sub(n),
                    order: order_of(order),
                    found,
                }),
            ),
        opens_invariants none
        no_unwind
    {
        self.count.fetch_sub(n, order)
    }

    /// `AtomicUsize::load`: returns what is there. The call, with its order and what it found, is
    /// added to the trace. `load` panics for the two orders that release.
    #[verifier::external_body]
    pub(crate) fn load(&self, order: Ordering, trace: &mut CountTrace) -> (found: usize)
        requires
            order_of(order) != Order::Release,
            order_of(order) != Order::AcquireRelease,
        ensures
            final(trace).is_like(*old(trace)),
            final(trace).done() == old(trace).done().push(
                (CountDone { count: *self, call: CountCall::Load, order: order_of(order), found }),
            ),
        opens_invariants none
        no_unwind
    {
        self.count.load(order)
    }
}

} // verus!
