//! A running machine: its current state, its bounded history and its callbacks.
use vstd::prelude::*;
use std::collections::VecDeque;
use crate::callbacks::{CallbackRegistry, Firing, RegistryView};
use crate::definition::{closed_machine, copy_of, faithful, holds, lawful, same, StateMachine};
use crate::DEFAULT_MAX_HISTORY_SIZE;

verus! {

/// Why a transition was refused. A refused transition changes nothing.
#[derive(Debug, PartialEq, Eq)]
pub enum TransitionError<S, I> {
    /// The state does not accept the input.
    InvalidInput { state: S, input: I },
    /// The state accepts the input, but the table has no next state for it.
    NoTransition { state: S, input: I },
}

/// What an instance is, to its contracts.
pub struct InstanceView<S, I> {
    /// The state that the machine is in.
    pub current: S,
    /// The transitions that the instance remembers, oldest first: each the
    /// state left and the input taken.
    pub history: Seq<(S, I)>,
    /// The number of transitions that the instance remembers at most.
    pub max_history_size: nat,
    /// Every transition made since the instance was created or last reset,
    /// oldest first.
    pub log: Seq<(S, I)>,
    /// Every call of a callback made since the instance was created, oldest
    /// first.
    pub dispatched: Seq<Firing<S, I>>,
}

/// The last `limit` items of `log`, or all of `log` where it has fewer.
pub open spec fn retained<T>(log: Seq<T>, limit: nat) -> Seq<T> {
    if log.len() <= limit {
        log
    } else {
        log.subrange(log.len() - limit, log.len() as int)
    }
}

/// `history` after `entry` has been appended under `limit`: if that makes it
/// longer than `limit`, the oldest item leaves.
pub open spec fn record<T>(history: Seq<T>, entry: T, limit: nat) -> Seq<T> {
    let grown = history.push(entry);
    if grown.len() > limit {
        grown.drop_first()
    } else {
        grown
    }
}

/// `state` accepts `input`.
pub open spec fn accepted<SM: StateMachine>(state: SM::State, input: SM::Input) -> bool {
    SM::spec_valid_inputs(state).contains(input)
}

/// What a transition from `state` on `input` returns.
pub open spec fn outcome<SM: StateMachine>(state: SM::State, input: SM::Input) -> Result<
    SM::State,
    TransitionError<SM::State, SM::Input>,
> {
    if !accepted::<SM>(state, input) {
        Err(TransitionError::InvalidInput { state, input })
    } else {
        match SM::spec_next_state(state, input) {
            Some(next) => Ok(next),
            None => Err(TransitionError::NoTransition { state, input }),
        }
    }
}

impl<S, I> InstanceView<S, I> {
    /// The view of a new instance in state `initial`.
    pub open spec fn fresh(initial: S, max_history_size: nat) -> Self {
        InstanceView {
            current: initial,
            history: Seq::empty(),
            max_history_size,
            log: Seq::empty(),
            dispatched: Seq::empty(),
        }
    }

    /// The history is the end of the log, as long as the limit allows.
    pub open spec fn consistent(self) -> bool {
        self.history == retained(self.log, self.max_history_size)
    }
}

/// The instance that a transition on `input` leaves behind, where the
/// callbacks are those of `registry`.
pub open spec fn step<SM: StateMachine>(
    before: InstanceView<SM::State, SM::Input>,
    registry: RegistryView<SM::State, SM::Input>,
    input: SM::Input,
) -> InstanceView<SM::State, SM::Input> {
    match outcome::<SM>(before.current, input) {
        Ok(next) => InstanceView {
            current: next,
            history: record(before.history, (before.current, input), before.max_history_size),
            max_history_size: before.max_history_size,
            log: before.log.push((before.current, input)),
            dispatched: before.dispatched + registry.firings(before.current, input, next),
        },
        Err(_) => before,
    }
}

/// Appending to a history that is the end of a log gives the end of the
/// longer log.
pub proof fn lemma_record_retained<T>(log: Seq<T>, entry: T, limit: nat)
    ensures
        record(retained(log, limit), entry, limit) == retained(log.push(entry), limit),
{
    assert(record(retained(log, limit), entry, limit) =~= retained(log.push(entry), limit));
}

/// The instance after the transitions on `inputs`, one after the other, where
/// a refused transition changes nothing.
pub open spec fn steps<SM: StateMachine>(
    before: InstanceView<SM::State, SM::Input>,
    registry: RegistryView<SM::State, SM::Input>,
    inputs: Seq<SM::Input>,
) -> InstanceView<SM::State, SM::Input>
    decreases inputs.len(),
{
    if inputs.len() == 0 {
        before
    } else {
        step::<SM>(steps::<SM>(before, registry, inputs.drop_last()), registry, inputs.last())
    }
}

/// Each of the transitions on `inputs`, one after the other, succeeds.
pub open spec fn all_succeed<SM: StateMachine>(
    before: InstanceView<SM::State, SM::Input>,
    registry: RegistryView<SM::State, SM::Input>,
    inputs: Seq<SM::Input>,
) -> bool
    decreases inputs.len(),
{
    inputs.len() > 0 ==> {
        &&& all_succeed::<SM>(before, registry, inputs.drop_last())
        &&& outcome::<SM>(
            steps::<SM>(before, registry, inputs.drop_last()).current,
            inputs.last(),
        ) is Ok
    }
}

/// What a transition returns and where it leads depends on the state and the
/// input alone. Two instances in the same state, whatever their histories,
/// limits and callbacks, get the same result from the same input and are in
/// the same state afterwards.
pub proof fn lemma_transition_deterministic<SM: StateMachine>(
    first: InstanceView<SM::State, SM::Input>,
    first_registry: RegistryView<SM::State, SM::Input>,
    second: InstanceView<SM::State, SM::Input>,
    second_registry: RegistryView<SM::State, SM::Input>,
    input: SM::Input,
)
    requires
        first.current == second.current,
    ensures
        outcome::<SM>(first.current, input) == outcome::<SM>(second.current, input),
        step::<SM>(first, first_registry, input).current == step::<SM>(
            second,
            second_registry,
            input,
        ).current,
        accepted::<SM>(first.current, input) && SM::spec_next_state(first.current, input) is Some
            ==> outcome::<SM>(first.current, input) == Ok::<
            SM::State,
            TransitionError<SM::State, SM::Input>,
        >(SM::spec_next_state(first.current, input).unwrap()),
{
}

/// An input that the current state does not accept is refused as
/// `InvalidInput`, with the state and the input, and the instance stays as it
/// is: its state, its history, and no callback is called.
pub proof fn lemma_invalid_input_rejected<SM: StateMachine>(
    before: InstanceView<SM::State, SM::Input>,
    registry: RegistryView<SM::State, SM::Input>,
    input: SM::Input,
)
    requires
        !accepted::<SM>(before.current, input),
    ensures
        outcome::<SM>(before.current, input) == Err::<
            SM::State,
            TransitionError<SM::State, SM::Input>,
        >(TransitionError::InvalidInput { state: before.current, input }),
        step::<SM>(before, registry, input) == before,
{
}

/// The history is never longer than its limit. It has as many entries as
/// transitions were made, up to the limit, and they are the last transitions
/// made, oldest first.
pub proof fn lemma_history_bound<S, I>(instance: InstanceView<S, I>)
    requires
        instance.consistent(),
    ensures
        instance.history.len() <= instance.max_history_size,
        instance.history.len() == if instance.log.len() <= instance.max_history_size {
            instance.log.len()
        } else {
            instance.max_history_size
        },
        forall|k: int|
            0 <= k < instance.history.len() ==> instance.history[k] == instance.log[
                instance.log.len() - instance.history.len() + k],
{
}

/// A transition keeps the history the end of the log. If it succeeds, the
/// log is one transition longer: the state left and the input taken.
pub proof fn lemma_step_consistent<SM: StateMachine>(
    before: InstanceView<SM::State, SM::Input>,
    registry: RegistryView<SM::State, SM::Input>,
    input: SM::Input,
)
    requires
        before.consistent(),
    ensures
        step::<SM>(before, registry, input).consistent(),
        step::<SM>(before, registry, input).max_history_size == before.max_history_size,
        outcome::<SM>(before.current, input) is Ok ==> step::<SM>(before, registry, input).log
            == before.log.push((before.current, input)),
        outcome::<SM>(before.current, input) is Err ==> step::<SM>(before, registry, input)
            == before,
{
    lemma_record_retained(before.log, (before.current, input), before.max_history_size);
}

/// After `inputs.len()` successful transitions of a new instance with limit
/// `limit`, the history has `inputs.len()` entries, or `limit` if that is
/// less, and they are the last transitions of the run.
pub proof fn lemma_history_after_run<SM: StateMachine>(
    limit: nat,
    registry: RegistryView<SM::State, SM::Input>,
    inputs: Seq<SM::Input>,
)
    requires
        all_succeed::<SM>(
            InstanceView::fresh(SM::spec_initial_state(), limit),
            registry,
            inputs,
        ),
    ensures
        ({
            let after = steps::<SM>(
                InstanceView::fresh(SM::spec_initial_state(), limit),
                registry,
                inputs,
            );
            &&& after.max_history_size == limit
            &&& after.log.len() == inputs.len()
            &&& after.history == retained(after.log, limit)
            &&& after.history.len() == if inputs.len() <= limit {
                inputs.len()
            } else {
                limit
            }
            &&& forall|k: int| 0 <= k < inputs.len() ==> (#[trigger] after.log[k]).1 == inputs[k]
        }),
    decreases inputs.len(),
{
    let start = InstanceView::<SM::State, SM::Input>::fresh(SM::spec_initial_state(), limit);
    if inputs.len() > 0 {
        lemma_history_after_run::<SM>(limit, registry, inputs.drop_last());
        let before = steps::<SM>(start, registry, inputs.drop_last());
        lemma_step_consistent::<SM>(before, registry, inputs.last());
        lemma_history_bound(steps::<SM>(start, registry, inputs));
    } else {
        assert(start.history =~= retained(start.log, limit));
    }
}

/// The state of an instance is always a listed state, in a machine whose
/// initial state is listed and whose transitions end in listed states: a new
/// instance is in a listed state, and a transition leads from a listed state
/// to a listed state.
pub proof fn lemma_current_state_is_listed<SM: StateMachine>(
    before: InstanceView<SM::State, SM::Input>,
    registry: RegistryView<SM::State, SM::Input>,
    input: SM::Input,
    limit: nat,
)
    requires
        closed_machine::<SM>(),
        SM::spec_states().contains(SM::spec_initial_state()),
    ensures
        SM::spec_states().contains(
            InstanceView::<SM::State, SM::Input>::fresh(SM::spec_initial_state(), limit).current,
        ),
        SM::spec_states().contains(before.current) ==> SM::spec_states().contains(
            step::<SM>(before, registry, input).current,
        ),
{
}

/// State machine instance that can execute state transitions.
///
/// The instance holds the current state, the history of the last transitions
/// and the callbacks that its transitions notify.
pub struct StateMachineInstance<SM: StateMachine> {
    current_state: SM::State,
    history: VecDeque<(SM::State, SM::Input)>,
    max_history_size: usize,
    callback_registry: CallbackRegistry<SM>,
    log: Ghost<Seq<(SM::State, SM::Input)>>,
    dispatched: Ghost<Seq<Firing<SM::State, SM::Input>>>,
}

impl<SM: StateMachine> View for StateMachineInstance<SM> {
    type V = InstanceView<SM::State, SM::Input>;

    closed spec fn view(&self) -> Self::V {
        InstanceView {
            current: self.current_state,
            history: self.history@,
            max_history_size: self.max_history_size as nat,
            log: self.log@,
            dispatched: self.dispatched@,
        }
    }
}

impl<SM: StateMachine> StateMachineInstance<SM> {
    /// The callbacks of the instance.
    pub closed spec fn registry(&self) -> CallbackRegistry<SM> {
        self.callback_registry
    }

    /// The history is the end of the log, and the callbacks are in order.
    pub open spec fn wf(&self) -> bool {
        self@.consistent() && self.registry().wf()
    }

    /// Create a new state machine instance with default history size, in the
    /// state that the description gives as the initial state.
    pub fn new() -> (r: Self)
        ensures
            r.wf(),
            r@ == InstanceView::<SM::State, SM::Input>::fresh(
                r@.current,
                DEFAULT_MAX_HISTORY_SIZE as nat,
            ),
            call_ensures(SM::initial_state, (), r@.current),
            faithful::<SM>() ==> r@.current == SM::spec_initial_state(),
            r.registry()@ == RegistryView::<SM::State, SM::Input>::empty(),
    {
        Self::with_max_history(DEFAULT_MAX_HISTORY_SIZE)
    }

    /// Create a new state machine instance with custom history size. With a
    /// size of 0 the instance remembers no transition.
    pub fn with_max_history(max_size: usize) -> (r: Self)
        ensures
            r.wf(),
            r@ == InstanceView::<SM::State, SM::Input>::fresh(r@.current, max_size as nat),
            call_ensures(SM::initial_state, (), r@.current),
            faithful::<SM>() ==> r@.current == SM::spec_initial_state(),
            r.registry()@ == RegistryView::<SM::State, SM::Input>::empty(),
    {
        StateMachineInstance {
            current_state: SM::initial_state(),
            history: VecDeque::new(),
            max_history_size: max_size,
            callback_registry: CallbackRegistry::new(),
            log: Ghost(Seq::empty()),
            dispatched: Ghost(Seq::empty()),
        }
    }

    /// Get the maximum history size.
    pub fn max_history_size(&self) -> (r: usize)
        ensures
            r == self@.max_history_size,
    {
        self.max_history_size
    }

    /// Get a read-only reference to the current state.
    pub fn current_state(&self) -> (r: &SM::State)
        ensures
            *r == self@.current,
    {
        &self.current_state
    }

    /// Get a read-only reference to the transition history.
    pub fn history(&self) -> (r: &VecDeque<(SM::State, SM::Input)>)
        ensures
            r@ == self@.history,
    {
        &self.history
    }

    /// Check if the given input is valid for the current state.
    pub fn can_accept(&self, input: &SM::Input) -> (r: bool)
        requires
            lawful::<SM>(),
        ensures
            r == accepted::<SM>(self@.current, *input),
    {
        let inputs = SM::valid_inputs(&self.current_state);
        holds(&inputs, input)
    }

    /// Get all valid inputs for the current state.
    pub fn valid_inputs(&self) -> (r: Vec<SM::Input>)
        ensures
            call_ensures(SM::valid_inputs, (&self@.current,), r),
            faithful::<SM>() ==> r@ == SM::spec_valid_inputs(self@.current),
    {
        SM::valid_inputs(&self.current_state)
    }

    /// Execute a state transition.
    ///
    /// An input that the current state does not accept is refused with
    /// `InvalidInput`, and one that it accepts but the table has no next state
    /// for with `NoTransition`; neither changes the instance or calls a
    /// callback. Else the machine moves to the next state, which is returned:
    /// the exit callbacks of the state left run, then the transition
    /// callbacks, then the entry callbacks of the state entered, where exit
    /// and entry callbacks are left out if the state stays the same; and the
    /// state left and the input are appended to the history, from which the
    /// oldest entry leaves if it has grown over its limit.
    pub fn transition(&mut self, input: SM::Input) -> (r: Result<
        SM::State,
        TransitionError<SM::State, SM::Input>,
    >)
        requires
            old(self).wf(),
            lawful::<SM>(),
        ensures
            final(self).wf(),
            r == outcome::<SM>(old(self)@.current, input),
            final(self)@ == step::<SM>(old(self)@, old(self).registry()@, input),
            final(self).registry() == old(self).registry(),
            r matches Ok(next) ==> final(self).registry().all_completed(
                old(self).registry()@.firings(old(self)@.current, input, next),
            ),
    {
        if !self.can_accept(&input) {
            return Err(
                TransitionError::InvalidInput { state: copy_of(&self.current_state), input },
            );
        }
        match SM::next_state(&self.current_state, &input) {
            Some(new_state) => {
                let old_state = copy_of(&self.current_state);
                let changed = !same(&old_state, &new_state);
                let ghost mut fired: Seq<Firing<SM::State, SM::Input>> = Seq::empty();
                // Trigger state exit callbacks (only if changing state)
                if changed {
                    let exits = self.callback_registry.trigger_state_exit(&old_state);
                    proof {
                        fired = fired + exits@;
                    }
                }
                // Trigger transition callbacks
                let moves = self.callback_registry.trigger_transition(
                    &old_state,
                    &input,
                    &new_state,
                );
                proof {
                    fired = fired + moves@;
                    lemma_record_retained(
                        self.log@,
                        (old_state, input),
                        self.max_history_size as nat,
                    );
                }
                // Record transition history, within its limit
                self.history.push_back((old_state, input));
                if self.history.len() > self.max_history_size {
                    self.history.pop_front();
                }
                // Update current state
                self.current_state = copy_of(&new_state);
                // Trigger state entry callbacks (only if changing state)
                if changed {
                    let entries = self.callback_registry.trigger_state_entry(&new_state);
                    proof {
                        fired = fired + entries@;
                    }
                }
                proof {
                    self.log@ = self.log@.push((old(self)@.current, input));
                    self.dispatched@ = self.dispatched@ + fired;
                }
                Ok(new_state)
            },
            None => Err(
                TransitionError::NoTransition { state: copy_of(&self.current_state), input },
            ),
        }
    }

    /// Reset the state machine to its initial state and clear history. The
    /// callbacks stay.
    pub fn reset(&mut self)
        requires
            old(self).wf(),
        ensures
            final(self).wf(),
            final(self)@ == (InstanceView {
                current: final(self)@.current,
                history: Seq::empty(),
                log: Seq::empty(),
                ..old(self)@
            }),
            call_ensures(SM::initial_state, (), final(self)@.current),
            faithful::<SM>() ==> final(self)@.current == SM::spec_initial_state(),
            final(self).registry() == old(self).registry(),
    {
        self.current_state = SM::initial_state();
        self.history.clear();
        proof {
            self.log@ = Seq::empty();
        }
    }

    /// Get the length of the history.
    pub fn history_len(&self) -> (r: usize)
        ensures
            r == self@.history.len(),
    {
        self.history.len()
    }

    /// Check if the history is empty.
    pub fn history_is_empty(&self) -> (r: bool)
        ensures
            r == (self@.history.len() == 0),
    {
        self.history.len() == 0
    }

    /// Get a mutable reference to the callback registry.
    ///
    /// This allows registration and management of callbacks for state machine
    /// events. The instance is as the callback registry is left.
    pub fn callback_registry(&mut self) -> (r: &mut CallbackRegistry<SM>)
        ensures
            *r == old(self).registry(),
            final(self).registry() == *final(r),
            final(self)@ == old(self)@,
    {
        &mut self.callback_registry
    }

    /// Get a read-only reference to the callback registry.
    pub fn callback_registry_ref(&self) -> (r: &CallbackRegistry<SM>)
        ensures
            *r == self.registry(),
    {
        &self.callback_registry
    }

    /// Register a callback for when entering a specific state.
    pub fn on_state_entry<F>(&mut self, state: SM::State, callback: F) where
        F: Fn(&SM::State) + Send + Sync + 'static,

        requires
            old(self).wf(),
            old(self).registry()@.total() < usize::MAX,
            forall|s: SM::State| call_requires(callback, (&s,)),
        ensures
            final(self).wf(),
            final(self)@ == old(self)@,
            final(self).registry()@ == (RegistryView {
                on_entry: old(self).registry()@.on_entry.push(state),
                ..old(self).registry()@
            }),
            forall|f: Firing<SM::State, SM::Input>| #[trigger]
                old(self).registry().completed(f) ==> final(self).registry().completed(f),
            forall|s: SM::State| #[trigger]
                final(self).registry().completed(
                    Firing::StateEntry { slot: old(self).registry()@.on_entry.len(), state: s },
                ) ==> call_ensures(callback, (&s,), ()),
    {
        self.callback_registry.on_state_entry(state, callback);
    }

    /// Register a callback for when exiting a specific state.
    pub fn on_state_exit<F>(&mut self, state: SM::State, callback: F) where
        F: Fn(&SM::State) + Send + Sync + 'static,

        requires
            old(self).wf(),
            old(self).registry()@.total() < usize::MAX,
            forall|s: SM::State| call_requires(callback, (&s,)),
        ensures
            final(self).wf(),
            final(self)@ == old(self)@,
            final(self).registry()@ == (RegistryView {
                on_exit: old(self).registry()@.on_exit.push(state),
                ..old(self).registry()@
            }),
            forall|f: Firing<SM::State, SM::Input>| #[trigger]
                old(self).registry().completed(f) ==> final(self).registry().completed(f),
            forall|s: SM::State| #[trigger]
                final(self).registry().completed(
                    Firing::StateExit { slot: old(self).registry()@.on_exit.len(), state: s },
                ) ==> call_ensures(callback, (&s,), ()),
    {
        self.callback_registry.on_state_exit(state, callback);
    }

    /// Register a callback for a specific transition.
    pub fn on_transition<F>(&mut self, from_state: SM::State, input: SM::Input, callback: F) where
        F: Fn(&SM::State, &SM::Input, &SM::State) + Send + Sync + 'static,

        requires
            old(self).wf(),
            old(self).registry()@.total() < usize::MAX,
            forall|a: SM::State, i: SM::Input, b: SM::State| call_requires(callback, (&a, &i, &b)),
        ensures
            final(self).wf(),
            final(self)@ == old(self)@,
            final(self).registry()@ == (RegistryView {
                on_transition: old(self).registry()@.on_transition.push((from_state, input)),
                ..old(self).registry()@
            }),
            forall|f: Firing<SM::State, SM::Input>| #[trigger]
                old(self).registry().completed(f) ==> final(self).registry().completed(f),
            forall|a: SM::State, i: SM::Input, b: SM::State| #[trigger]
                final(self).registry().completed(
                    Firing::OnTransition {
                        slot: old(self).registry()@.on_transition.len(),
                        from: a,
                        input: i,
                        to: b,
                    },
                ) ==> call_ensures(callback, (&a, &i, &b), ()),
    {
        self.callback_registry.on_transition(from_state, input, callback);
    }

    /// Register a global callback that triggers on any state entry.
    pub fn on_any_state_entry<F>(&mut self, callback: F) where
        F: Fn(&SM::State) + Send + Sync + 'static,

        requires
            old(self).wf(),
            old(self).registry()@.total() < usize::MAX,
            forall|s: SM::State| call_requires(callback, (&s,)),
        ensures
            final(self).wf(),
            final(self)@ == old(self)@,
            final(self).registry()@ == (RegistryView {
                any_entry: old(self).registry()@.any_entry + 1,
                ..old(self).registry()@
            }),
            forall|f: Firing<SM::State, SM::Input>| #[trigger]
                old(self).registry().completed(f) ==> final(self).registry().completed(f),
            forall|s: SM::State| #[trigger]
                final(self).registry().completed(
                    Firing::AnyEntry { slot: old(self).registry()@.any_entry, state: s },
                ) ==> call_ensures(callback, (&s,), ()),
    {
        self.callback_registry.on_any_state_entry(callback);
    }

    /// Register a global callback that triggers on any state exit.
    pub fn on_any_state_exit<F>(&mut self, callback: F) where
        F: Fn(&SM::State) + Send + Sync + 'static,

        requires
            old(self).wf(),
            old(self).registry()@.total() < usize::MAX,
            forall|s: SM::State| call_requires(callback, (&s,)),
        ensures
            final(self).wf(),
            final(self)@ == old(self)@,
            final(self).registry()@ == (RegistryView {
                any_exit: old(self).registry()@.any_exit + 1,
                ..old(self).registry()@
            }),
            forall|f: Firing<SM::State, SM::Input>| #[trigger]
                old(self).registry().completed(f) ==> final(self).registry().completed(f),
            forall|s: SM::State| #[trigger]
                final(self).registry().completed(
                    Firing::AnyExit { slot: old(self).registry()@.any_exit, state: s },
                ) ==> call_ensures(callback, (&s,), ()),
    {
        self.callback_registry.on_any_state_exit(callback);
    }

    /// Register a global callback that triggers on any transition.
    pub fn on_any_transition<F>(&mut self, callback: F) where
        F: Fn(&SM::State, &SM::Input, &SM::State) + Send + Sync + 'static,

        requires
            old(self).wf(),
            old(self).registry()@.total() < usize::MAX,
            forall|a: SM::State, i: SM::Input, b: SM::State| call_requires(callback, (&a, &i, &b)),
        ensures
            final(self).wf(),
            final(self)@ == old(self)@,
            final(self).registry()@ == (RegistryView {
                any_transition: old(self).registry()@.any_transition + 1,
                ..old(self).registry()@
            }),
            forall|f: Firing<SM::State, SM::Input>| #[trigger]
                old(self).registry().completed(f) ==> final(self).registry().completed(f),
            forall|a: SM::State, i: SM::Input, b: SM::State| #[trigger]
                final(self).registry().completed(
                    Firing::AnyTransition {
                        slot: old(self).registry()@.any_transition,
                        from: a,
                        input: i,
                        to: b,
                    },
                ) ==> call_ensures(callback, (&a, &i, &b), ()),
    {
        self.callback_registry.on_any_transition(callback);
    }

    /// Clear all registered callbacks.
    pub fn clear_callbacks(&mut self)
        requires
            old(self).wf(),
        ensures
            final(self).wf(),
            final(self)@ == old(self)@,
            final(self).registry()@ == RegistryView::<SM::State, SM::Input>::empty(),
    {
        self.callback_registry.clear();
    }

    /// Get the total number of registered callbacks.
    pub fn callback_count(&self) -> (r: usize)
        requires
            self.wf(),
        ensures
            r == self.registry()@.total(),
    {
        self.callback_registry.callback_count()
    }
}

impl<SM: StateMachine> Default for StateMachineInstance<SM> {
    fn default() -> (r: Self)
        ensures
            r.wf(),
            r@ == InstanceView::<SM::State, SM::Input>::fresh(
                r@.current,
                DEFAULT_MAX_HISTORY_SIZE as nat,
            ),
            call_ensures(SM::initial_state, (), r@.current),
            faithful::<SM>() ==> r@.current == SM::spec_initial_state(),
            r.registry()@ == RegistryView::<SM::State, SM::Input>::empty(),
    {
        Self::new()
    }
}

} // verus!
