//! Any number of readers and writers on one lock, and what holds of them however they interleave.
//!
//! An agent is one call on the lock together with the access that it may lead to: a thread that
//! holds three guards is three agents. The agents take their steps one at a time and in any
//! order, and a step performs at most one atomic operation on the word that they share.
use vstd::prelude::*;

use crate::phase::{
    begins, is_at_leisure, leads, lemma_one_more, next_of, op_of, refuses_reader, Event, Phase,
    TryWriteError,
};
use crate::word::{
    apply, new_word_is_free, operations_change_one_part, parts, parts_determine_the_word,
    READER_MASK,
};

verus! {

/// One lock, the value that it protects, and the agents that use it.
pub ghost struct System<T> {
    pub word: u64,
    pub agents: Seq<Phase>,
    pub data: T,
}

/// What an agent does next.
pub ghost enum Step<T> {
    /// An agent that has no access begins a call.
    Begin { agent: int, call: Phase },
    /// An agent in the middle of a call performs its next operation on the word.
    Act { agent: int },
    /// An agent with write access changes the protected value.
    Store { agent: int, value: T },
    /// An agent with access begins to give it up.
    Release { agent: int },
    /// An agent that waits for read access and is not counted stops waiting.
    GiveUp { agent: int },
}

/// An agent in this phase is counted among the readers.
pub open spec fn is_counted(phase: Phase) -> bool {
    phase is ReadRetreating || phase is TryReadRetreating || phase is Reading
        || phase is ReadLeaving
}

/// An agent in this phase is the one that has set the lock flag.
pub open spec fn has_lock_flag(phase: Phase) -> bool {
    phase is WriteUnqueueing || phase is WriteDraining || phase is TryWriteChecking
        || phase is TryWriteYielding || phase is Writing || phase is WriteLeaving
}

/// An agent in this phase is the one that has set the queue flag.
pub open spec fn has_queue_flag(phase: Phase) -> bool {
    phase is WriteQueued || phase is WriteUnqueueing
}

/// An agent in this phase has read access that it has not fully given up.
pub open spec fn can_read(phase: Phase) -> bool {
    phase is Reading || phase is ReadLeaving
}

/// An agent in this phase has write access that it has not fully given up.
pub open spec fn can_write(phase: Phase) -> bool {
    phase is Writing || phase is WriteLeaving
}

/// [`is_counted`] as a property to count by.
pub open spec fn counted() -> spec_fn(Phase) -> bool {
    |phase: Phase| is_counted(phase)
}

/// [`has_lock_flag`] as a property to count by.
pub open spec fn lock_flag() -> spec_fn(Phase) -> bool {
    |phase: Phase| has_lock_flag(phase)
}

/// [`has_queue_flag`] as a property to count by.
pub open spec fn queue_flag() -> spec_fn(Phase) -> bool {
    |phase: Phase| has_queue_flag(phase)
}

/// Having read access as a property to count by.
pub open spec fn reading() -> spec_fn(Phase) -> bool {
    |phase: Phase| phase is Reading
}

/// How many agents are in a phase that has the property `p`.
pub open spec fn count(agents: Seq<Phase>, p: spec_fn(Phase) -> bool) -> nat
    decreases agents.len(),
{
    if agents.len() == 0 {
        0
    } else {
        count(agents.drop_last(), p) + if p(agents.last()) {
            1nat
        } else {
            0nat
        }
    }
}

/// A new lock, with agents that have not begun anything yet.
pub open spec fn is_initial<T>(s: System<T>) -> bool {
    &&& s.word == 0
    &&& s.agents.len() <= READER_MASK
    &&& forall|i: int| 0 <= i < s.agents.len() ==> s.agents[i] == Phase::Idle
}

/// The agent that takes the step.
pub open spec fn agent_of<T>(step: Step<T>) -> int {
    match step {
        Step::Begin { agent, .. } => agent,
        Step::Act { agent } => agent,
        Step::Store { agent, .. } => agent,
        Step::Release { agent } => agent,
        Step::GiveUp { agent } => agent,
    }
}

/// The step can be taken in `s`.
pub open spec fn is_enabled<T>(s: System<T>, step: Step<T>) -> bool {
    let phase = s.agents[agent_of(step)];
    &&& 0 <= agent_of(step) < s.agents.len()
    &&& match step {
        Step::Begin { call, .. } => is_at_leisure(phase) && begins(call),
        Step::Act { .. } => op_of(phase) is Some,
        Step::Store { .. } => phase is Writing,
        Step::Release { .. } => phase is Reading || phase is Writing,
        Step::GiveUp { .. } => phase is ReadArriving,
    }
}

/// What `s` becomes when the step is taken.
pub open spec fn take<T>(s: System<T>, step: Step<T>) -> System<T> {
    match step {
        Step::Begin { agent, call } => System { agents: s.agents.update(agent, call), ..s },
        Step::Act { agent } => System {
            word: apply(op_of(s.agents[agent])->0, s.word),
            agents: s.agents.update(agent, next_of(s.agents[agent], s.word)),
            ..s
        },
        Step::Store { value, .. } => System { data: value, ..s },
        Step::Release { agent } => System {
            agents: s.agents.update(
                agent,
                if s.agents[agent] is Reading {
                    Phase::ReadLeaving
                } else {
                    Phase::WriteLeaving
                },
            ),
            ..s
        },
        Step::GiveUp { agent } => System { agents: s.agents.update(agent, Phase::Idle), ..s },
    }
}

/// `states` are the states that a new lock goes through when the agents take `steps`.
pub open spec fn is_execution<T>(states: Seq<System<T>>, steps: Seq<Step<T>>) -> bool {
    &&& states.len() == steps.len() + 1
    &&& is_initial(states[0])
    &&& forall|k: int|
        #![trigger steps[k]]
        0 <= k < steps.len() ==> is_enabled(states[k], steps[k]) && states[k + 1] == take(
            states[k],
            steps[k],
        )
}

/// The word says of the agents what is true of them, and access is exclusive where it should be.
pub open spec fn is_sound<T>(s: System<T>) -> bool {
    &&& s.agents.len() <= READER_MASK
    &&& parts(s.word).readers == count(s.agents, counted())
    &&& count(s.agents, lock_flag()) == if parts(s.word).locked {
        1nat
    } else {
        0nat
    }
    &&& count(s.agents, queue_flag()) == if parts(s.word).queued {
        1nat
    } else {
        0nat
    }
    &&& forall|i: int, j: int|
        #![trigger s.agents[i], s.agents[j]]
        0 <= i < s.agents.len() && 0 <= j < s.agents.len() && can_write(s.agents[i]) ==> !can_read(
            s.agents[j],
        )
}

/// When one agent changes its phase, only that agent can change the count.
proof fn lemma_count_update(agents: Seq<Phase>, p: spec_fn(Phase) -> bool, i: int, phase: Phase)
    requires
        0 <= i < agents.len(),
    ensures
        count(agents.update(i, phase), p) == count(agents, p) + (if p(phase) {
            1int
        } else {
            0
        }) - (if p(agents[i]) {
            1int
        } else {
            0
        }),
    decreases agents.len(),
{
    let changed = agents.update(i, phase);
    if i == agents.len() - 1 {
        assert(changed.drop_last() =~= agents.drop_last());
    } else {
        assert(changed.drop_last() =~= agents.drop_last().update(i, phase));
        lemma_count_update(agents.drop_last(), p, i, phase);
    }
}

/// There are no more agents with the property than agents, and none only if each lacks it.
pub proof fn lemma_count_bounds(agents: Seq<Phase>, p: spec_fn(Phase) -> bool)
    ensures
        count(agents, p) <= agents.len(),
        count(agents, p) == 0 <==> forall|i: int| 0 <= i < agents.len() ==> !p(#[trigger] agents[i]),
    decreases agents.len(),
{
    if agents.len() > 0 {
        let rest = agents.drop_last();
        lemma_count_bounds(rest, p);
        if count(agents, p) == 0 {
            assert forall|i: int| 0 <= i < agents.len() implies !p(#[trigger] agents[i]) by {
                if i < agents.len() - 1 {
                    assert(rest[i] == agents[i]);
                }
            }
        } else if count(rest, p) > 0 {
            let i = choose|i: int| 0 <= i < rest.len() && p(#[trigger] rest[i]);
            assert(p(agents[i]));
        } else {
            assert(p(agents[agents.len() - 1]));
        }
    }
}

/// Two different agents with the property make two.
proof fn lemma_count_two(agents: Seq<Phase>, p: spec_fn(Phase) -> bool, i: int, j: int)
    requires
        0 <= i < agents.len(),
        0 <= j < agents.len(),
        i != j,
        p(agents[i]),
        p(agents[j]),
    ensures
        count(agents, p) >= 2,
    decreases agents.len(),
{
    let rest = agents.drop_last();
    if i < agents.len() - 1 && j < agents.len() - 1 {
        lemma_count_two(rest, p, i, j);
    } else {
        let k = if i < agents.len() - 1 {
            i
        } else {
            j
        };
        assert(p(rest[k]));
        lemma_count_bounds(rest, p);
    }
}

/// A new lock is sound.
pub proof fn lemma_initial_is_sound<T>(s: System<T>)
    requires
        is_initial(s),
    ensures
        is_sound(s),
{
    new_word_is_free();
    lemma_count_bounds(s.agents, counted());
    lemma_count_bounds(s.agents, lock_flag());
    lemma_count_bounds(s.agents, queue_flag());
}

/// Every step keeps a system sound.
pub proof fn steps_keep_soundness<T>(s: System<T>, step: Step<T>)
    requires
        is_sound(s),
        is_enabled(s, step),
    ensures
        is_sound(take(s, step)),
{
    let i = agent_of(step);
    let t = take(s, step);
    if step !is Store {
        lemma_count_update(s.agents, counted(), i, t.agents[i]);
        lemma_count_update(s.agents, lock_flag(), i, t.agents[i]);
        lemma_count_update(s.agents, queue_flag(), i, t.agents[i]);
        lemma_count_bounds(s.agents, counted());
        lemma_count_bounds(t.agents, counted());
        lemma_count_bounds(s.agents, lock_flag());
        lemma_count_bounds(s.agents, queue_flag());
    }
    if step is Act {
        operations_change_one_part(op_of(s.agents[i])->0, s.word);
    }
}

/// However the agents interleave, a lock stays sound.
pub proof fn executions_are_sound<T>(states: Seq<System<T>>, steps: Seq<Step<T>>, k: int)
    requires
        is_execution(states, steps),
        0 <= k < states.len(),
    ensures
        is_sound(states[k]),
    decreases k,
{
    if k == 0 {
        lemma_initial_is_sound(states[0]);
    } else {
        executions_are_sound(states, steps, k - 1);
        steps_keep_soundness(states[k - 1], steps[k - 1]);
    }
}

/// In a sound system, an agent with write access is the only one with access.
pub proof fn lemma_one_writer<T>(s: System<T>, writer: int, other: int)
    requires
        is_sound(s),
        0 <= writer < s.agents.len(),
        0 <= other < s.agents.len(),
        other != writer,
        can_write(s.agents[writer]),
    ensures
        !can_write(s.agents[other]),
        !can_read(s.agents[other]),
{
    if can_write(s.agents[other]) {
        lemma_count_two(s.agents, lock_flag(), writer, other);
    }
}

/// While an agent has write access, no other agent has access of either kind.
pub proof fn writers_exclude_all_others<T>(
    states: Seq<System<T>>,
    steps: Seq<Step<T>>,
    k: int,
    writer: int,
    other: int,
)
    requires
        is_execution(states, steps),
        0 <= k < states.len(),
        0 <= writer < states[k].agents.len(),
        0 <= other < states[k].agents.len(),
        other != writer,
        can_write(states[k].agents[writer]),
    ensures
        !can_write(states[k].agents[other]),
        !can_read(states[k].agents[other]),
{
    executions_are_sound(states, steps, k);
    lemma_one_writer(states[k], writer, other);
}

/// The protected value stays as it is while an agent has read access to it.
pub proof fn readers_see_no_change<T>(
    states: Seq<System<T>>,
    steps: Seq<Step<T>>,
    from: int,
    to: int,
    reader: int,
)
    requires
        is_execution(states, steps),
        0 <= from <= to < states.len(),
        0 <= reader < states[from].agents.len(),
        forall|k: int| from <= k < to ==> can_read(#[trigger] states[k].agents[reader]),
    ensures
        states[to].data == states[from].data,
    decreases to - from,
{
    if from < to {
        let last = steps[to - 1];
        lemma_agents_stay(states, steps, from, to - 1);
        readers_see_no_change(states, steps, from, to - 1, reader);
        executions_are_sound(states, steps, to - 1);
        assert(can_read(states[to - 1].agents[reader]));
        if last is Store {
            assert(can_write(states[to - 1].agents[agent_of(last)]));
        }
    }
}

/// The protected value stays as it is while an agent has write access to it and does not store.
pub proof fn writers_see_no_change<T>(
    states: Seq<System<T>>,
    steps: Seq<Step<T>>,
    from: int,
    to: int,
    writer: int,
)
    requires
        is_execution(states, steps),
        0 <= from <= to < states.len(),
        0 <= writer < states[from].agents.len(),
        forall|k: int| from <= k < to ==> can_write(#[trigger] states[k].agents[writer]),
        forall|k: int|
            from <= k < to && #[trigger] steps[k] is Store ==> agent_of(steps[k]) != writer,
    ensures
        states[to].data == states[from].data,
    decreases to - from,
{
    if from < to {
        let last = steps[to - 1];
        lemma_agents_stay(states, steps, from, to - 1);
        writers_see_no_change(states, steps, from, to - 1, writer);
        assert(can_write(states[to - 1].agents[writer]));
        if last is Store {
            writers_exclude_all_others(states, steps, to - 1, writer, agent_of(last));
        }
    }
}

/// While an agent has write access, the protected value is what that agent has stored last.
pub proof fn writers_see_their_own_stores<T>(
    states: Seq<System<T>>,
    steps: Seq<Step<T>>,
    from: int,
    to: int,
    writer: int,
)
    requires
        is_execution(states, steps),
        0 <= from < to < states.len(),
        0 <= writer < states[from].agents.len(),
        steps[from] is Store,
        agent_of(steps[from]) == writer,
        forall|k: int| from < k < to ==> can_write(#[trigger] states[k].agents[writer]),
        forall|k: int|
            from < k < to && #[trigger] steps[k] is Store ==> agent_of(steps[k]) != writer,
    ensures
        states[to].data == steps[from]->value,
{
    assert(states[from + 1] == take(states[from], steps[from]));
    writers_see_no_change(states, steps, from + 1, to, writer);
}

/// How often the protected value is stored in these steps.
pub open spec fn stores<T>(steps: Seq<Step<T>>) -> nat
    decreases steps.len(),
{
    if steps.len() == 0 {
        0
    } else {
        stores(steps.drop_last()) + if steps.last() is Store {
            1nat
        } else {
            0nat
        }
    }
}

/// The store in step `k` is an increment: the agent has read the value in the state `read`, has had
/// write access and stored nothing ever since, and stores one more than it has read.
pub open spec fn is_increment(
    states: Seq<System<int>>,
    steps: Seq<Step<int>>,
    read: int,
    k: int,
) -> bool {
    let writer = agent_of(steps[k]);
    &&& 0 <= read <= k
    &&& steps[k]->value == states[read].data + 1
    &&& forall|j: int| read <= j < k ==> can_write(#[trigger] states[j].agents[writer])
    &&& forall|j: int|
        read <= j < k && #[trigger] steps[j] is Store ==> agent_of(steps[j]) != writer
}

/// No update is lost: where every store is an increment, the value grows by one with each of them,
/// however the agents interleave. When they are done, the lock is as good as new.
pub proof fn no_update_is_lost(
    states: Seq<System<int>>,
    steps: Seq<Step<int>>,
    reads: spec_fn(int) -> int,
)
    requires
        is_execution(states, steps),
        forall|k: int|
            0 <= k < steps.len() && #[trigger] steps[k] is Store ==> is_increment(
                states,
                steps,
                reads(k),
                k,
            ),
    ensures
        states.last().data == states[0].data + stores(steps),
        (forall|i: int|
            0 <= i < states.last().agents.len() ==> is_at_leisure(
                #[trigger] states.last().agents[i],
            )) ==> states.last().word == 0,
{
    let end = steps.len() as int;
    lemma_increments_add_up(states, steps, reads, end);
    assert(steps.take(end) =~= steps);
    executions_are_sound(states, steps, end);
    if forall|i: int|
        0 <= i < states.last().agents.len() ==> is_at_leisure(#[trigger] states.last().agents[i]) {
        unused_locks_are_as_new(states.last());
    }
}

/// After each step the value has grown by the number of stores so far.
proof fn lemma_increments_add_up(
    states: Seq<System<int>>,
    steps: Seq<Step<int>>,
    reads: spec_fn(int) -> int,
    to: int,
)
    requires
        is_execution(states, steps),
        0 <= to < states.len(),
        forall|k: int|
            0 <= k < steps.len() && #[trigger] steps[k] is Store ==> is_increment(
                states,
                steps,
                reads(k),
                k,
            ),
    ensures
        states[to].data == states[0].data + stores(steps.take(to)),
    decreases to,
{
    if to > 0 {
        let k = to - 1;
        let step = steps[k];
        lemma_increments_add_up(states, steps, reads, k);
        assert(steps.take(to).drop_last() =~= steps.take(k));
        assert(states[k + 1] == take(states[k], steps[k]));
        if step is Store {
            lemma_agents_stay(states, steps, reads(k), k);
            writers_see_no_change(states, steps, reads(k), k, agent_of(step));
        }
    }
}

/// No step adds or removes an agent.
proof fn lemma_agents_stay<T>(states: Seq<System<T>>, steps: Seq<Step<T>>, from: int, to: int)
    requires
        is_execution(states, steps),
        0 <= from <= to < states.len(),
    ensures
        states[to].agents.len() == states[from].agents.len(),
    decreases to - from,
{
    if from < to {
        lemma_agents_stay(states, steps, from, to - 1);
        assert(states[to] == take(states[to - 1], steps[to - 1]));
    }
}

/// The lock flag is set exactly while an agent has set it, and so is the queue flag.
pub proof fn flags_have_owners<T>(s: System<T>)
    requires
        is_sound(s),
    ensures
        parts(s.word).locked <==> exists|i: int|
            0 <= i < s.agents.len() && has_lock_flag(#[trigger] s.agents[i]),
        parts(s.word).queued <==> exists|i: int|
            0 <= i < s.agents.len() && has_queue_flag(#[trigger] s.agents[i]),
{
    lemma_count_bounds(s.agents, lock_flag());
    lemma_count_bounds(s.agents, queue_flag());
}

/// Two properties that the agents have alike count alike.
proof fn lemma_count_alike(
    agents: Seq<Phase>,
    p: spec_fn(Phase) -> bool,
    q: spec_fn(Phase) -> bool,
)
    requires
        forall|i: int| 0 <= i < agents.len() ==> p(#[trigger] agents[i]) == q(agents[i]),
    ensures
        count(agents, p) == count(agents, q),
    decreases agents.len(),
{
    if agents.len() > 0 {
        let rest = agents.drop_last();
        assert forall|i: int| 0 <= i < rest.len() implies p(#[trigger] rest[i]) == q(rest[i]) by {
            assert(rest[i] == agents[i]);
        }
        lemma_count_alike(rest, p, q);
    }
}

/// While no call is under way, the word tells of those who have access and of nobody else.
pub proof fn lemma_rested<T>(s: System<T>)
    requires
        is_sound(s),
        forall|i: int| 0 <= i < s.agents.len() ==> op_of(#[trigger] s.agents[i]) is None,
    ensures
        parts(s.word).locked <==> exists|i: int|
            0 <= i < s.agents.len() && #[trigger] s.agents[i] is Writing,
        !parts(s.word).queued,
        parts(s.word).readers == count(s.agents, reading()),
{
    flags_have_owners(s);
    lemma_count_alike(s.agents, counted(), reading());
    if parts(s.word).locked {
        let i = choose|i: int| 0 <= i < s.agents.len() && has_lock_flag(#[trigger] s.agents[i]);
        assert(s.agents[i] is Writing);
    }
}

/// Once no agent has access or a call under way, the lock is as good as new: neither a refused
/// attempt nor access that was given up leaves a trace.
pub proof fn unused_locks_are_as_new<T>(s: System<T>)
    requires
        is_sound(s),
        forall|i: int| 0 <= i < s.agents.len() ==> is_at_leisure(#[trigger] s.agents[i]),
    ensures
        s.word == 0,
{
    lemma_count_bounds(s.agents, counted());
    lemma_count_bounds(s.agents, lock_flag());
    lemma_count_bounds(s.agents, queue_flag());
    new_word_is_free();
    parts_determine_the_word(s.word, 0);
}

/// An agent in `phase` that found the word `word` would only have to try again.
pub open spec fn waits(phase: Phase, word: u64) -> bool {
    match phase {
        Phase::ReadArriving => refuses_reader(word) is Some,
        Phase::WriteQueueing => parts(word).queued,
        Phase::WriteQueued => parts(word).locked,
        Phase::WriteDraining => parts(word).readers > 0,
        _ => false,
    }
}

/// The agents never wait for each other in a circle: while there is a call under way and no agent
/// has access, some agent can perform an operation that does not only make it wait.
pub proof fn calls_never_deadlock<T>(s: System<T>)
    requires
        is_sound(s),
        forall|i: int|
            0 <= i < s.agents.len() ==> !(#[trigger] s.agents[i] is Reading)
                && !(s.agents[i] is Writing),
        exists|i: int| 0 <= i < s.agents.len() && op_of(#[trigger] s.agents[i]) is Some,
    ensures
        exists|i: int|
            0 <= i < s.agents.len() && op_of(#[trigger] s.agents[i]) is Some && !waits(
                s.agents[i],
                s.word,
            ),
{
    lemma_count_bounds(s.agents, counted());
    flags_have_owners(s);
    if parts(s.word).readers > 0 {
        let i = choose|i: int| 0 <= i < s.agents.len() && is_counted(#[trigger] s.agents[i]);
        assert(op_of(s.agents[i]) is Some && !waits(s.agents[i], s.word));
    } else if parts(s.word).locked {
        let i = choose|i: int| 0 <= i < s.agents.len() && has_lock_flag(#[trigger] s.agents[i]);
        assert(op_of(s.agents[i]) is Some && !waits(s.agents[i], s.word));
    } else if parts(s.word).queued {
        let i = choose|i: int| 0 <= i < s.agents.len() && has_queue_flag(#[trigger] s.agents[i]);
        assert(op_of(s.agents[i]) is Some && !waits(s.agents[i], s.word));
    } else {
        let i = choose|i: int| 0 <= i < s.agents.len() && op_of(#[trigger] s.agents[i]) is Some;
        assert(!waits(s.agents[i], s.word));
    }
}

/// A write attempt that is refused because of readers reports how many agents are counted among
/// them at that moment.
pub proof fn refusals_report_the_readers<T>(s: System<T>, agent: int)
    requires
        is_sound(s),
        0 <= agent < s.agents.len(),
        s.agents[agent] is TryWriteChecking,
    ensures
        ({
            let readers = count(s.agents, counted());
            take(s, Step::Act { agent }).agents[agent] == if readers == 0 {
                Phase::Writing
            } else {
                Phase::TryWriteYielding(TryWriteError::HasReaders(readers as u64))
            }
        }),
{
}

/// A reader that arrives gets access exactly when no agent has set a flag. In particular readers
/// do not keep each other out.
pub proof fn arrivals_heed_the_writers<T>(s: System<T>, agent: int)
    requires
        is_sound(s),
        0 <= agent < s.agents.len(),
        s.agents[agent] is ReadArriving || s.agents[agent] is TryReadArriving,
    ensures
        take(s, Step::Act { agent }).agents[agent] is Reading <==> forall|i: int|
            0 <= i < s.agents.len() ==> !has_lock_flag(#[trigger] s.agents[i]) && !has_queue_flag(
                s.agents[i],
            ),
{
    flags_have_owners(s);
}

/// What `agent` does to the word in the steps from `from` to `to`.
pub open spec fn events_of<T>(
    states: Seq<System<T>>,
    steps: Seq<Step<T>>,
    agent: int,
    from: int,
    to: int,
) -> Seq<Event>
    decreases to - from,
{
    if to <= from {
        Seq::empty()
    } else {
        let before = events_of(states, steps, agent, from, to - 1);
        let s = states[to - 1];
        if steps[to - 1] == (Step::<T>::Act { agent }) {
            before.push(Event { op: op_of(s.agents[agent])->0, found: s.word })
        } else {
            before
        }
    }
}

/// In the middle of a call an agent does what a lock logs of a call that finds the same words.
pub proof fn agents_follow_their_calls<T>(
    states: Seq<System<T>>,
    steps: Seq<Step<T>>,
    agent: int,
    from: int,
    to: int,
)
    requires
        is_execution(states, steps),
        0 <= from <= to < states.len(),
        0 <= agent < states[from].agents.len(),
        forall|k: int|
            from <= k < to && agent_of(#[trigger] steps[k]) == agent ==> steps[k] is Act,
    ensures
        leads(
            states[from].agents[agent],
            events_of(states, steps, agent, from, to),
            states[to].agents[agent],
        ),
    decreases to - from,
{
    if from < to {
        let step = steps[to - 1];
        let s = states[to - 1];
        agents_follow_their_calls(states, steps, agent, from, to - 1);
        lemma_agents_stay(states, steps, from, to - 1);
        if agent_of(step) == agent {
            lemma_one_more(
                states[from].agents[agent],
                events_of(states, steps, agent, from, to - 1),
                s.agents[agent],
                s.word,
            );
        }
    }
}

} // verus!
