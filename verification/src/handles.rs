//! Any number of handles that share one counted thing, and what holds of them in every order of
//! events.
use vstd::prelude::*;

use crate::counter;

verus! {

/// What the handles share: the count, which of the handles made so far are still there, and
/// whether one of them has found itself the last one on being dropped.
pub ghost struct Handles {
    pub count: usize,
    pub live: Seq<bool>,
    pub over: bool,
}

/// What happens to a handle.
pub ghost enum HandleStep {
    /// The handle is cloned.
    Clone { handle: int },
    /// The handle is dropped. It learns whether it is the last one.
    Drop { handle: int },
    /// The handle looks at the count.
    Look { handle: int },
}

/// One handle, and nothing has happened to it. Its counter was made for one handle, as every
/// counter is.
pub open spec fn is_initial(shared: counter::Counter, s: Handles) -> bool {
    &&& shared.first() == 1
    &&& s.count == shared.first()
    &&& s.live == seq![true]
    &&& !s.over
}

/// The handle that the step happens to.
pub open spec fn handle_of(step: HandleStep) -> int {
    match step {
        HandleStep::Clone { handle } => handle,
        HandleStep::Drop { handle } => handle,
        HandleStep::Look { handle } => handle,
    }
}

/// The step can happen in `s`: to a handle that is there, and the count has room for a clone.
pub open spec fn is_enabled(s: Handles, step: HandleStep) -> bool {
    &&& 0 <= handle_of(step) < s.live.len()
    &&& s.live[handle_of(step)]
    &&& step is Clone ==> s.count < usize::MAX
}

/// What `s` becomes when the step happens.
pub open spec fn take(s: Handles, step: HandleStep) -> Handles {
    match step {
        HandleStep::Clone { .. } => Handles {
            count: counter::apply(counter::CountOp::Up, s.count),
            live: s.live.push(true),
            ..s
        },
        HandleStep::Drop { handle } => Handles {
            count: counter::apply(counter::CountOp::Down, s.count),
            live: s.live.update(handle, false),
            over: s.over || s.count == 1,
        },
        HandleStep::Look { .. } => s,
    }
}

/// `states` are the states that a first handle and its clones, which share the counter `shared`,
/// go through when `steps` happen.
pub open spec fn is_execution(
    shared: counter::Counter,
    states: Seq<Handles>,
    steps: Seq<HandleStep>,
) -> bool {
    &&& states.len() == steps.len() + 1
    &&& is_initial(shared, states[0])
    &&& forall|k: int|
        #![trigger steps[k]]
        0 <= k < steps.len() ==> is_enabled(states[k], steps[k]) && states[k + 1] == take(
            states[k],
            steps[k],
        )
}

/// How many of the handles are there.
pub open spec fn living(live: Seq<bool>) -> nat
    decreases live.len(),
{
    if live.len() == 0 {
        0
    } else {
        living(live.drop_last()) + if live.last() {
            1nat
        } else {
            0nat
        }
    }
}

/// The count is the number of handles, and the last one was found once there are none.
pub open spec fn is_sound(s: Handles) -> bool {
    &&& s.count == living(s.live)
    &&& s.over <==> living(s.live) == 0
}

/// When one handle changes, only that handle can change the number of living ones.
proof fn lemma_living_update(live: Seq<bool>, i: int, b: bool)
    requires
        0 <= i < live.len(),
    ensures
        living(live.update(i, b)) == living(live) + (if b {
            1int
        } else {
            0
        }) - (if live[i] {
            1int
        } else {
            0
        }),
    decreases live.len(),
{
    let changed = live.update(i, b);
    if i == live.len() - 1 {
        assert(changed.drop_last() =~= live.drop_last());
    } else {
        assert(changed.drop_last() =~= live.drop_last().update(i, b));
        lemma_living_update(live.drop_last(), i, b);
    }
}

/// There are no living handles only if each handle is gone.
proof fn lemma_living_none(live: Seq<bool>)
    ensures
        living(live) == 0 <==> forall|i: int| 0 <= i < live.len() ==> !#[trigger] live[i],
    decreases live.len(),
{
    if live.len() > 0 {
        let rest = live.drop_last();
        lemma_living_none(rest);
        if living(live) == 0 {
            assert forall|i: int| 0 <= i < live.len() implies !#[trigger] live[i] by {
                if i < live.len() - 1 {
                    assert(rest[i] == live[i]);
                }
            }
        } else if living(rest) > 0 {
            let i = choose|i: int| 0 <= i < rest.len() && #[trigger] rest[i];
            assert(live[i]);
        } else {
            assert(live[live.len() - 1]);
        }
    }
}

/// Every step keeps the count true.
pub proof fn steps_keep_soundness(s: Handles, step: HandleStep)
    requires
        is_sound(s),
        is_enabled(s, step),
    ensures
        is_sound(take(s, step)),
{
    let i = handle_of(step);
    lemma_living_none(s.live);
    match step {
        HandleStep::Clone { .. } => {
            assert(s.live.push(true).drop_last() =~= s.live);
        },
        HandleStep::Drop { .. } => {
            lemma_living_update(s.live, i, false);
        },
        HandleStep::Look { .. } => {},
    }
}

/// Whatever happens to the handles, the count is their number, and a handle has found itself the
/// last one exactly when none is left.
pub proof fn executions_are_sound(
    shared: counter::Counter,
    states: Seq<Handles>,
    steps: Seq<HandleStep>,
    k: int,
)
    requires
        is_execution(shared, states, steps),
        0 <= k < states.len(),
    ensures
        states[k].count == living(states[k].live),
        states[k].over <==> forall|i: int|
            0 <= i < states[k].live.len() ==> !#[trigger] states[k].live[i],
    decreases k,
{
    lemma_executions(shared, states, steps, k);
    lemma_living_none(states[k].live);
}

/// Every state of an execution is sound.
pub proof fn lemma_executions(
    shared: counter::Counter,
    states: Seq<Handles>,
    steps: Seq<HandleStep>,
    k: int,
)
    requires
        is_execution(shared, states, steps),
        0 <= k < states.len(),
    ensures
        is_sound(states[k]),
    decreases k,
{
    if k == 0 {
        assert(states[0].live.drop_last() =~= Seq::<bool>::empty());
        assert(living(seq![true]) == 1) by {
            reveal_with_fuel(living, 2);
            assert(seq![true].drop_last() =~= Seq::<bool>::empty());
        }
    } else {
        lemma_executions(shared, states, steps, k - 1);
        steps_keep_soundness(states[k - 1], steps[k - 1]);
    }
}

/// No handle finds itself the last one while another is there, and at most one handle ever does:
/// nothing happens to any handle after that.
pub proof fn nothing_happens_after_the_last(
    shared: counter::Counter,
    states: Seq<Handles>,
    steps: Seq<HandleStep>,
    k: int,
)
    requires
        is_execution(shared, states, steps),
        0 <= k < states.len(),
        states[k].over,
    ensures
        k == states.len() - 1,
{
    executions_are_sound(shared, states, steps, k);
    if k < states.len() - 1 {
        let step = steps[k];
        assert(states[k].live[handle_of(step)]);
    }
}

/// A handle that looks at the count learns how many other handles there are, and finds itself
/// alone only when every other handle is gone.
pub proof fn looks_count_the_others(s: Handles, handle: int)
    requires
        is_sound(s),
        0 <= handle < s.live.len(),
        s.live[handle],
    ensures
        s.count >= 1,
        s.count - 1 == living(s.live.update(handle, false)),
        s.count == 1 <==> forall|i: int|
            0 <= i < s.live.len() && i != handle ==> !#[trigger] s.live[i],
{
    let rest = s.live.update(handle, false);
    lemma_living_update(s.live, handle, false);
    lemma_living_none(rest);
    if s.count == 1 {
        assert forall|i: int| 0 <= i < s.live.len() && i != handle implies !#[trigger] s.live[i] by {
            assert(rest[i] == s.live[i]);
        }
    }
}

} // verus!
