//! Callbacks on the events of a machine, and the table that holds them.
//!
//! A callback is registered on one of six surfaces: entry into one state, exit
//! from one state, one transition (a state and an input), and entry, exit or
//! transition of any kind. Callbacks of one surface run in the order in which
//! they were registered; of two surfaces for the same event, the one for any
//! state or transition runs first.
//!
//! What a callback does is its own affair. The table's contracts say which
//! callbacks an event calls, with which arguments and in which order, as a
//! sequence of [`Firing`]s, and that each of them has returned.
use vstd::prelude::*;
use crate::definition::{plain_machine, same, StateMachine};

verus! {

/// One call of one callback: the surface it was registered on, its position
/// among the callbacks of that surface, and the arguments it was called with.
pub enum Firing<S, I> {
    /// A callback registered for the exit from any state.
    AnyExit { slot: nat, state: S },
    /// A callback registered for the exit from the state it is called with.
    StateExit { slot: nat, state: S },
    /// A callback registered for any transition.
    AnyTransition { slot: nat, from: S, input: I, to: S },
    /// A callback registered for the transition it is called with.
    OnTransition { slot: nat, from: S, input: I, to: S },
    /// A callback registered for the entry into any state.
    AnyEntry { slot: nat, state: S },
    /// A callback registered for the entry into the state it is called with.
    StateEntry { slot: nat, state: S },
}

/// What the dispatch of an event depends on: how many callbacks each of the
/// three general surfaces holds, and for each of the three specific surfaces
/// the keys of its callbacks, in the order of registration.
pub struct RegistryView<S, I> {
    pub any_entry: nat,
    pub any_exit: nat,
    pub any_transition: nat,
    pub on_entry: Seq<S>,
    pub on_exit: Seq<S>,
    pub on_transition: Seq<(S, I)>,
}

/// The positions in `keys` that hold `key`, in rising order.
pub open spec fn keyed_slots<K>(keys: Seq<K>, key: K) -> Seq<nat>
    decreases keys.len(),
{
    if keys.len() == 0 {
        Seq::empty()
    } else {
        let before = keyed_slots(keys.drop_last(), key);
        if keys.last() == key {
            before.push((keys.len() - 1) as nat)
        } else {
            before
        }
    }
}

impl<S, I> RegistryView<S, I> {
    /// The view of a table without callbacks.
    pub open spec fn empty() -> Self {
        RegistryView {
            any_entry: 0,
            any_exit: 0,
            any_transition: 0,
            on_entry: Seq::empty(),
            on_exit: Seq::empty(),
            on_transition: Seq::empty(),
        }
    }

    /// The number of callbacks on all six surfaces.
    pub open spec fn total(self) -> nat {
        self.any_entry + self.any_exit + self.any_transition + self.on_entry.len()
            + self.on_exit.len() + self.on_transition.len()
    }

    /// The calls that the exit from `state` makes.
    pub open spec fn exit_firings(self, state: S) -> Seq<Firing<S, I>> {
        Seq::new(self.any_exit, |k: int| Firing::AnyExit { slot: k as nat, state })
            + keyed_slots(self.on_exit, state).map_values(
            |k: nat| Firing::StateExit { slot: k, state },
        )
    }

    /// The calls that the transition from `from` on `input` to `to` makes.
    pub open spec fn transition_firings(self, from: S, input: I, to: S) -> Seq<Firing<S, I>> {
        Seq::new(
            self.any_transition,
            |k: int| Firing::AnyTransition { slot: k as nat, from, input, to },
        ) + keyed_slots(self.on_transition, (from, input)).map_values(
            |k: nat| Firing::OnTransition { slot: k, from, input, to },
        )
    }

    /// The calls that the entry into `state` makes.
    pub open spec fn entry_firings(self, state: S) -> Seq<Firing<S, I>> {
        Seq::new(self.any_entry, |k: int| Firing::AnyEntry { slot: k as nat, state })
            + keyed_slots(self.on_entry, state).map_values(
            |k: nat| Firing::StateEntry { slot: k, state },
        )
    }

    /// The calls that one successful transition makes, in order: exit, then
    /// transition, then entry, where exit and entry are left out of a
    /// transition that stays in its state.
    pub open spec fn firings(self, from: S, input: I, to: S) -> Seq<Firing<S, I>> {
        if from == to {
            self.transition_firings(from, input, to)
        } else {
            self.exit_firings(from) + self.transition_firings(from, input, to)
                + self.entry_firings(to)
        }
    }
}

/// A position is in `keyed_slots(keys, key)` exactly when `keys` holds `key`
/// there.
pub proof fn lemma_keyed_slots<K>(keys: Seq<K>, key: K)
    ensures
        forall|j: int|
            0 <= j < keyed_slots(keys, key).len() ==> {
                let k = #[trigger] keyed_slots(keys, key)[j];
                k < keys.len() && keys[k as int] == key
            },
        forall|k: int|
            0 <= k < keys.len() && keys[k] == key ==> keyed_slots(keys, key).contains(k as nat),
        keyed_slots(keys, key).len() <= keys.len(),
    decreases keys.len(),
{
    if keys.len() > 0 {
        let front = keys.drop_last();
        lemma_keyed_slots(front, key);
        let before = keyed_slots(front, key);
        let all = keyed_slots(keys, key);
        assert forall|k: int| 0 <= k < keys.len() && keys[k] == key implies all.contains(
            k as nat,
        ) by {
            if k < keys.len() - 1 {
                assert(front[k] == key);
                let j = choose|j: int| 0 <= j < before.len() && before[j] == k as nat;
                assert(all[j] == k as nat);
            } else {
                assert(all[all.len() - 1] == k as nat);
            }
        }
    }
}

/// A transition that stays in its state calls the callbacks for transitions,
/// each that is registered for any transition or for this one, and no
/// callback for an exit or an entry.
pub proof fn lemma_self_loop_firings<S, I>(registry: RegistryView<S, I>, state: S, input: I)
    ensures
        registry.firings(state, input, state) == registry.transition_firings(state, input, state),
        forall|k: int|
            0 <= k < registry.firings(state, input, state).len() ==> {
                let firing = #[trigger] registry.firings(state, input, state)[k];
                firing is AnyTransition || firing is OnTransition
            },
        forall|slot: nat|
            slot < registry.any_transition ==> #[trigger] registry.firings(
                state,
                input,
                state,
            ).contains(Firing::AnyTransition { slot, from: state, input, to: state }),
        forall|slot: nat|
            slot < registry.on_transition.len() && registry.on_transition[slot as int] == (
                state,
                input,
            ) ==> #[trigger] registry.firings(state, input, state).contains(
                Firing::OnTransition { slot, from: state, input, to: state },
            ),
{
    let general = Seq::new(
        registry.any_transition,
        |k: int| Firing::AnyTransition { slot: k as nat, from: state, input, to: state },
    );
    let slots = keyed_slots(registry.on_transition, (state, input));
    let specific = slots.map_values(
        |k: nat| Firing::OnTransition { slot: k, from: state, input, to: state },
    );
    let all = registry.firings(state, input, state);
    assert(all == general + specific);
    lemma_keyed_slots(registry.on_transition, (state, input));
    assert forall|slot: nat| slot < registry.any_transition implies #[trigger] all.contains(
        Firing::AnyTransition { slot, from: state, input, to: state },
    ) by {
        assert(all[slot as int] == general[slot as int]);
    }
    assert forall|slot: nat|
        slot < registry.on_transition.len() && registry.on_transition[slot as int] == (
            state,
            input,
        ) implies #[trigger] all.contains(
        Firing::OnTransition { slot, from: state, input, to: state },
    ) by {
        assert(slots.contains(slot));
        let j = choose|j: int| 0 <= j < slots.len() && slots[j] == slot;
        assert(all[general.len() + j] == specific[j]);
    }
}

/// A transition from one state to another calls the exit callbacks of the
/// state left, then the transition callbacks, then the entry callbacks of the
/// state entered; on each of the three occasions the callbacks for any state
/// or transition come before those for the one at hand, and the callbacks of
/// one surface come in the order of their registration.
pub proof fn lemma_firing_order<S, I>(registry: RegistryView<S, I>, from: S, input: I, to: S)
    requires
        from != to,
    ensures
        registry.firings(from, input, to) == registry.exit_firings(from)
            + registry.transition_firings(from, input, to) + registry.entry_firings(to),
        forall|k: int|
            0 <= k < registry.any_exit ==> #[trigger] registry.exit_firings(from)[k]
                == (Firing::<S, I>::AnyExit { slot: k as nat, state: from }),
        forall|k: int|
            0 <= k < registry.any_transition ==> #[trigger] registry.transition_firings(
                from,
                input,
                to,
            )[k] == (Firing::AnyTransition { slot: k as nat, from, input, to }),
        forall|k: int|
            0 <= k < registry.any_entry ==> #[trigger] registry.entry_firings(to)[k]
                == (Firing::<S, I>::AnyEntry { slot: k as nat, state: to }),
        forall|i: int, j: int|
            0 <= i < j < keyed_slots(registry.on_exit, from).len() ==> keyed_slots(
                registry.on_exit,
                from,
            )[i] < keyed_slots(registry.on_exit, from)[j],
        forall|i: int, j: int|
            0 <= i < j < keyed_slots(registry.on_transition, (from, input)).len() ==> keyed_slots(
                registry.on_transition,
                (from, input),
            )[i] < keyed_slots(registry.on_transition, (from, input))[j],
        forall|i: int, j: int|
            0 <= i < j < keyed_slots(registry.on_entry, to).len() ==> keyed_slots(
                registry.on_entry,
                to,
            )[i] < keyed_slots(registry.on_entry, to)[j],
{
    lemma_keyed_slots_rise(registry.on_exit, from);
    lemma_keyed_slots_rise(registry.on_transition, (from, input));
    lemma_keyed_slots_rise(registry.on_entry, to);
}

/// The positions in `keyed_slots(keys, key)` rise.
pub proof fn lemma_keyed_slots_rise<K>(keys: Seq<K>, key: K)
    ensures
        forall|i: int, j: int|
            0 <= i < j < keyed_slots(keys, key).len() ==> keyed_slots(keys, key)[i] < keyed_slots(
                keys,
                key,
            )[j],
    decreases keys.len(),
{
    if keys.len() > 0 {
        lemma_keyed_slots_rise(keys.drop_last(), key);
        lemma_keyed_slots(keys.drop_last(), key);
    }
}

/// What a callback on a state does, seen from the table.
trait StateObserver<S>: Send + Sync {
    spec fn accepts(&self, state: S) -> bool;

    spec fn done(&self, state: S) -> bool;

    fn notify(&self, state: &S)
        requires
            self.accepts(*state),
        ensures
            self.done(*state),
    ;
}

/// What a callback on a transition does, seen from the table.
trait TransitionObserver<S, I>: Send + Sync {
    spec fn accepts(&self, from: S, input: I, to: S) -> bool;

    spec fn done(&self, from: S, input: I, to: S) -> bool;

    fn notify(&self, from: &S, input: &I, to: &S)
        requires
            self.accepts(*from, *input, *to),
        ensures
            self.done(*from, *input, *to),
    ;
}

struct StateFn<F> {
    f: F,
}

struct TransitionFn<F> {
    f: F,
}

impl<S, F: Fn(&S) + Send + Sync> StateObserver<S> for StateFn<F> {
    closed spec fn accepts(&self, state: S) -> bool {
        call_requires(self.f, (&state,))
    }

    closed spec fn done(&self, state: S) -> bool {
        call_ensures(self.f, (&state,), ())
    }

    fn notify(&self, state: &S) {
        (self.f)(state)
    }
}

impl<S, I, F: Fn(&S, &I, &S) + Send + Sync> TransitionObserver<S, I> for TransitionFn<F> {
    closed spec fn accepts(&self, from: S, input: I, to: S) -> bool {
        call_requires(self.f, (&from, &input, &to))
    }

    closed spec fn done(&self, from: S, input: I, to: S) -> bool {
        call_ensures(self.f, (&from, &input, &to), ())
    }

    fn notify(&self, from: &S, input: &I, to: &S) {
        (self.f)(from, input, to)
    }
}

/// A callback that is called with one state.
#[verifier::reject_recursive_types(S)]
pub struct StateHandler<S> {
    run: Box<dyn StateObserver<S>>,
}

/// A callback that is called with a transition: the state left, the input and
/// the state entered.
#[verifier::reject_recursive_types(S)]
#[verifier::reject_recursive_types(I)]
pub struct TransitionHandler<S, I> {
    run: Box<dyn TransitionObserver<S, I>>,
}

impl<S> StateHandler<S> {
    /// The callback may be called with `state`.
    pub closed spec fn accepts(&self, state: S) -> bool {
        self.run.accepts(state)
    }

    /// The callback was called with `state` and has returned.
    pub closed spec fn done(&self, state: S) -> bool {
        self.run.done(state)
    }

    /// Wraps a function as a callback.
    pub fn new<F>(callback: F) -> (r: Self) where F: Fn(&S) + Send + Sync + 'static
        ensures
            forall|state: S| call_requires(callback, (&state,)) ==> #[trigger] r.accepts(state),
            forall|state: S| #[trigger] r.done(state) ==> call_ensures(callback, (&state,), ()),
    {
        StateHandler { run: Box::new(StateFn { f: callback }) }
    }

    /// Calls the callback.
    pub fn call(&self, state: &S)
        requires
            self.accepts(*state),
        ensures
            self.done(*state),
    {
        self.run.notify(state)
    }
}

impl<S, I> TransitionHandler<S, I> {
    /// The callback may be called with this transition.
    pub closed spec fn accepts(&self, from: S, input: I, to: S) -> bool {
        self.run.accepts(from, input, to)
    }

    /// The callback was called with this transition and has returned.
    pub closed spec fn done(&self, from: S, input: I, to: S) -> bool {
        self.run.done(from, input, to)
    }

    /// Wraps a function as a callback.
    pub fn new<F>(callback: F) -> (r: Self) where F: Fn(&S, &I, &S) + Send + Sync + 'static
        ensures
            forall|from: S, input: I, to: S|
                call_requires(callback, (&from, &input, &to)) ==> #[trigger] r.accepts(
                    from,
                    input,
                    to,
                ),
            forall|from: S, input: I, to: S| #[trigger]
                r.done(from, input, to) ==> call_ensures(callback, (&from, &input, &to), ()),
    {
        TransitionHandler { run: Box::new(TransitionFn { f: callback }) }
    }

    /// Calls the callback.
    pub fn call(&self, from: &S, input: &I, to: &S)
        requires
            self.accepts(*from, *input, *to),
        ensures
            self.done(*from, *input, *to),
    {
        self.run.notify(from, input, to)
    }
}

/// Callback function type for state entry.
pub type StateEntryCallback<SM> = StateHandler<<SM as StateMachine>::State>;

/// Callback function type for state exit.
pub type StateExitCallback<SM> = StateHandler<<SM as StateMachine>::State>;

/// Callback function type for transition.
pub type TransitionCallback<SM> = TransitionHandler<
    <SM as StateMachine>::State,
    <SM as StateMachine>::Input,
>;

/// The key of a callback on one transition.
pub type TransitionKey<SM> = (<SM as StateMachine>::State, <SM as StateMachine>::Input);

/// Callback registry for state machine events.
///
/// Each of the three specific surfaces is a list of keyed callbacks in the
/// order of registration, so that the callbacks of one key run in that order.
pub struct CallbackRegistry<SM: StateMachine> {
    state_entry_callbacks: Vec<(SM::State, StateHandler<SM::State>)>,
    state_exit_callbacks: Vec<(SM::State, StateHandler<SM::State>)>,
    transition_callbacks: Vec<(TransitionKey<SM>, TransitionHandler<SM::State, SM::Input>)>,
    global_entry_callbacks: Vec<StateHandler<SM::State>>,
    global_exit_callbacks: Vec<StateHandler<SM::State>>,
    global_transition_callbacks: Vec<TransitionHandler<SM::State, SM::Input>>,
}

impl<SM: StateMachine> View for CallbackRegistry<SM> {
    type V = RegistryView<SM::State, SM::Input>;

    closed spec fn view(&self) -> Self::V {
        RegistryView {
            any_entry: self.global_entry_callbacks@.len(),
            any_exit: self.global_exit_callbacks@.len(),
            any_transition: self.global_transition_callbacks@.len(),
            on_entry: self.state_entry_callbacks@.map_values(
                |e: (SM::State, StateHandler<SM::State>)| e.0,
            ),
            on_exit: self.state_exit_callbacks@.map_values(
                |e: (SM::State, StateHandler<SM::State>)| e.0,
            ),
            on_transition: self.transition_callbacks@.map_values(
                |e: (TransitionKey<SM>, TransitionHandler<SM::State, SM::Input>)| e.0,
            ),
        }
    }
}

impl<SM: StateMachine> CallbackRegistry<SM> {
    /// Every callback may be called with every argument, and the callbacks can
    /// be counted.
    pub closed spec fn wf(&self) -> bool {
        &&& self@.total() <= usize::MAX
        &&& forall|k: int, s: SM::State|
            0 <= k < self.global_entry_callbacks@.len()
                ==> #[trigger] self.global_entry_callbacks@[k].accepts(s)
        &&& forall|k: int, s: SM::State|
            0 <= k < self.global_exit_callbacks@.len()
                ==> #[trigger] self.global_exit_callbacks@[k].accepts(s)
        &&& forall|k: int, a: SM::State, i: SM::Input, b: SM::State|
            0 <= k < self.global_transition_callbacks@.len()
                ==> #[trigger] self.global_transition_callbacks@[k].accepts(a, i, b)
        &&& forall|k: int, s: SM::State|
            0 <= k < self.state_entry_callbacks@.len()
                ==> #[trigger] self.state_entry_callbacks@[k].1.accepts(s)
        &&& forall|k: int, s: SM::State|
            0 <= k < self.state_exit_callbacks@.len()
                ==> #[trigger] self.state_exit_callbacks@[k].1.accepts(s)
        &&& forall|k: int, a: SM::State, i: SM::Input, b: SM::State|
            0 <= k < self.transition_callbacks@.len()
                ==> #[trigger] self.transition_callbacks@[k].1.accepts(a, i, b)
    }

    /// The callback that `firing` names exists, was called with the arguments
    /// that `firing` gives, and has returned.
    pub closed spec fn completed(&self, firing: Firing<SM::State, SM::Input>) -> bool {
        match firing {
            Firing::AnyExit { slot, state } => slot < self.global_exit_callbacks@.len()
                && self.global_exit_callbacks@[slot as int].done(state),
            Firing::StateExit { slot, state } => slot < self.state_exit_callbacks@.len()
                && self.state_exit_callbacks@[slot as int].1.done(state),
            Firing::AnyTransition { slot, from, input, to } => slot
                < self.global_transition_callbacks@.len()
                && self.global_transition_callbacks@[slot as int].done(from, input, to),
            Firing::OnTransition { slot, from, input, to } => slot
                < self.transition_callbacks@.len()
                && self.transition_callbacks@[slot as int].1.done(from, input, to),
            Firing::AnyEntry { slot, state } => slot < self.global_entry_callbacks@.len()
                && self.global_entry_callbacks@[slot as int].done(state),
            Firing::StateEntry { slot, state } => slot < self.state_entry_callbacks@.len()
                && self.state_entry_callbacks@[slot as int].1.done(state),
        }
    }

    /// Each call in `firings` was made and has returned.
    pub open spec fn all_completed(&self, firings: Seq<Firing<SM::State, SM::Input>>) -> bool {
        forall|k: int| 0 <= k < firings.len() ==> self.completed(#[trigger] firings[k])
    }

    /// Create a new callback registry.
    pub fn new() -> (r: Self)
        ensures
            r.wf(),
            r@ == RegistryView::<SM::State, SM::Input>::empty(),
    {
        let r = CallbackRegistry {
            state_entry_callbacks: Vec::new(),
            state_exit_callbacks: Vec::new(),
            transition_callbacks: Vec::new(),
            global_entry_callbacks: Vec::new(),
            global_exit_callbacks: Vec::new(),
            global_transition_callbacks: Vec::new(),
        };
        assert(r@.on_entry =~= Seq::empty());
        assert(r@.on_exit =~= Seq::empty());
        assert(r@.on_transition =~= Seq::empty());
        r
    }

    /// Register a callback for when entering a specific state.
    pub fn on_state_entry<F>(&mut self, state: SM::State, callback: F) where
        F: Fn(&SM::State) + Send + Sync + 'static,

        requires
            old(self).wf(),
            old(self)@.total() < usize::MAX,
            forall|s: SM::State| call_requires(callback, (&s,)),
        ensures
            final(self).wf(),
            final(self)@ == (RegistryView {
                on_entry: old(self)@.on_entry.push(state),
                ..old(self)@
            }),
            forall|f: Firing<SM::State, SM::Input>| #[trigger]
                old(self).completed(f) ==> final(self).completed(f),
            forall|s: SM::State| #[trigger]
                final(self).completed(
                    Firing::StateEntry { slot: old(self)@.on_entry.len(), state: s },
                ) ==> call_ensures(callback, (&s,), ()),
    {
        let entry = StateHandler::new(callback);
        self.state_entry_callbacks.push((state, entry));
        assert(self@.on_entry =~= old(self)@.on_entry.push(state));
    }

    /// Register a callback for when exiting a specific state.
    pub fn on_state_exit<F>(&mut self, state: SM::State, callback: F) where
        F: Fn(&SM::State) + Send + Sync + 'static,

        requires
            old(self).wf(),
            old(self)@.total() < usize::MAX,
            forall|s: SM::State| call_requires(callback, (&s,)),
        ensures
            final(self).wf(),
            final(self)@ == (RegistryView {
                on_exit: old(self)@.on_exit.push(state),
                ..old(self)@
            }),
            forall|f: Firing<SM::State, SM::Input>| #[trigger]
                old(self).completed(f) ==> final(self).completed(f),
            forall|s: SM::State| #[trigger]
                final(self).completed(
                    Firing::StateExit { slot: old(self)@.on_exit.len(), state: s },
                ) ==> call_ensures(callback, (&s,), ()),
    {
        let entry = StateHandler::new(callback);
        self.state_exit_callbacks.push((state, entry));
        assert(self@.on_exit =~= old(self)@.on_exit.push(state));
    }

    /// Register a callback for a specific transition.
    pub fn on_transition<F>(&mut self, from_state: SM::State, input: SM::Input, callback: F) where
        F: Fn(&SM::State, &SM::Input, &SM::State) + Send + Sync + 'static,

        requires
            old(self).wf(),
            old(self)@.total() < usize::MAX,
            forall|a: SM::State, i: SM::Input, b: SM::State| call_requires(callback, (&a, &i, &b)),
        ensures
            final(self).wf(),
            final(self)@ == (RegistryView {
                on_transition: old(self)@.on_transition.push((from_state, input)),
                ..old(self)@
            }),
            forall|f: Firing<SM::State, SM::Input>| #[trigger]
                old(self).completed(f) ==> final(self).completed(f),
            forall|a: SM::State, i: SM::Input, b: SM::State| #[trigger]
                final(self).completed(
                    Firing::OnTransition {
                        slot: old(self)@.on_transition.len(),
                        from: a,
                        input: i,
                        to: b,
                    },
                ) ==> call_ensures(callback, (&a, &i, &b), ()),
    {
        let entry = TransitionHandler::new(callback);
        self.transition_callbacks.push(((from_state, input), entry));
        assert(self@.on_transition =~= old(self)@.on_transition.push((from_state, input)));
    }

    /// Register a global callback that triggers on any state entry.
    pub fn on_any_state_entry<F>(&mut self, callback: F) where
        F: Fn(&SM::State) + Send + Sync + 'static,

        requires
            old(self).wf(),
            old(self)@.total() < usize::MAX,
            forall|s: SM::State| call_requires(callback, (&s,)),
        ensures
            final(self).wf(),
            final(self)@ == (RegistryView { any_entry: old(self)@.any_entry + 1, ..old(self)@ }),
            forall|f: Firing<SM::State, SM::Input>| #[trigger]
                old(self).completed(f) ==> final(self).completed(f),
            forall|s: SM::State| #[trigger]
                final(self).completed(Firing::AnyEntry { slot: old(self)@.any_entry, state: s })
                    ==> call_ensures(callback, (&s,), ()),
    {
        let entry = StateHandler::new(callback);
        self.global_entry_callbacks.push(entry);
    }

    /// Register a global callback that triggers on any state exit.
    pub fn on_any_state_exit<F>(&mut self, callback: F) where
        F: Fn(&SM::State) + Send + Sync + 'static,

        requires
            old(self).wf(),
            old(self)@.total() < usize::MAX,
            forall|s: SM::State| call_requires(callback, (&s,)),
        ensures
            final(self).wf(),
            final(self)@ == (RegistryView { any_exit: old(self)@.any_exit + 1, ..old(self)@ }),
            forall|f: Firing<SM::State, SM::Input>| #[trigger]
                old(self).completed(f) ==> final(self).completed(f),
            forall|s: SM::State| #[trigger]
                final(self).completed(Firing::AnyExit { slot: old(self)@.any_exit, state: s })
                    ==> call_ensures(callback, (&s,), ()),
    {
        let entry = StateHandler::new(callback);
        self.global_exit_callbacks.push(entry);
    }

    /// Register a global callback that triggers on any transition.
    pub fn on_any_transition<F>(&mut self, callback: F) where
        F: Fn(&SM::State, &SM::Input, &SM::State) + Send + Sync + 'static,

        requires
            old(self).wf(),
            old(self)@.total() < usize::MAX,
            forall|a: SM::State, i: SM::Input, b: SM::State| call_requires(callback, (&a, &i, &b)),
        ensures
            final(self).wf(),
            final(self)@ == (RegistryView {
                any_transition: old(self)@.any_transition + 1,
                ..old(self)@
            }),
            forall|f: Firing<SM::State, SM::Input>| #[trigger]
                old(self).completed(f) ==> final(self).completed(f),
            forall|a: SM::State, i: SM::Input, b: SM::State| #[trigger]
                final(self).completed(
                    Firing::AnyTransition {
                        slot: old(self)@.any_transition,
                        from: a,
                        input: i,
                        to: b,
                    },
                ) ==> call_ensures(callback, (&a, &i, &b), ()),
    {
        let entry = TransitionHandler::new(callback);
        self.global_transition_callbacks.push(entry);
    }

    /// Trigger state entry callbacks: those for any state, then those for
    /// `state`. The calls made are returned, in their order.
    pub fn trigger_state_entry(&self, state: &SM::State) -> (fired: Ghost<
        Seq<Firing<SM::State, SM::Input>>,
    >)
        requires
            self.wf(),
            plain_machine::<SM>(),
        ensures
            fired@ == self@.entry_firings(*state),
            self.all_completed(fired@),
    {
        let ghost mut fired: Seq<Firing<SM::State, SM::Input>> = Seq::empty();
        let mut i: usize = 0;
        while i < self.global_entry_callbacks.len()
            invariant
                self.wf(),
                i <= self.global_entry_callbacks.len(),
                fired == Seq::new(
                    i as nat,
                    |k: int|
                        Firing::<SM::State, SM::Input>::AnyEntry { slot: k as nat, state: *state },
                ),
                self.all_completed(fired),
            decreases self.global_entry_callbacks.len() - i,
        {
            self.global_entry_callbacks[i].call(state);
            proof {
                fired = fired.push(Firing::AnyEntry { slot: i as nat, state: *state });
            }
            i += 1;
        }
        let ghost general = fired;
        let ghost keys = self@.on_entry;
        let mut j: usize = 0;
        proof {
            assert(keys.take(0) =~= Seq::empty());
        }
        while j < self.state_entry_callbacks.len()
            invariant
                self.wf(),
                plain_machine::<SM>(),
                j <= self.state_entry_callbacks.len(),
                keys == self@.on_entry,
                fired == general + keyed_slots(keys.take(j as int), *state).map_values(
                    |k: nat| Firing::<SM::State, SM::Input>::StateEntry { slot: k, state: *state },
                ),
                self.all_completed(fired),
            decreases self.state_entry_callbacks.len() - j,
        {
            proof {
                assert(keys.take(j + 1).drop_last() =~= keys.take(j as int));
            }
            if same(&self.state_entry_callbacks[j].0, state) {
                self.state_entry_callbacks[j].1.call(state);
                proof {
                    fired = fired.push(Firing::StateEntry { slot: j as nat, state: *state });
                }
            }
            j += 1;
        }
        proof {
            assert(keys.take(keys.len() as int) =~= keys);
        }
        Ghost(fired)
    }

    /// Trigger state exit callbacks: those for any state, then those for
    /// `state`. The calls made are returned, in their order.
    pub fn trigger_state_exit(&self, state: &SM::State) -> (fired: Ghost<
        Seq<Firing<SM::State, SM::Input>>,
    >)
        requires
            self.wf(),
            plain_machine::<SM>(),
        ensures
            fired@ == self@.exit_firings(*state),
            self.all_completed(fired@),
    {
        let ghost mut fired: Seq<Firing<SM::State, SM::Input>> = Seq::empty();
        let mut i: usize = 0;
        while i < self.global_exit_callbacks.len()
            invariant
                self.wf(),
                i <= self.global_exit_callbacks.len(),
                fired == Seq::new(
                    i as nat,
                    |k: int|
                        Firing::<SM::State, SM::Input>::AnyExit { slot: k as nat, state: *state },
                ),
                self.all_completed(fired),
            decreases self.global_exit_callbacks.len() - i,
        {
            self.global_exit_callbacks[i].call(state);
            proof {
                fired = fired.push(Firing::AnyExit { slot: i as nat, state: *state });
            }
            i += 1;
        }
        let ghost general = fired;
        let ghost keys = self@.on_exit;
        let mut j: usize = 0;
        proof {
            assert(keys.take(0) =~= Seq::empty());
        }
        while j < self.state_exit_callbacks.len()
            invariant
                self.wf(),
                plain_machine::<SM>(),
                j <= self.state_exit_callbacks.len(),
                keys == self@.on_exit,
                fired == general + keyed_slots(keys.take(j as int), *state).map_values(
                    |k: nat| Firing::<SM::State, SM::Input>::StateExit { slot: k, state: *state },
                ),
                self.all_completed(fired),
            decreases self.state_exit_callbacks.len() - j,
        {
            proof {
                assert(keys.take(j + 1).drop_last() =~= keys.take(j as int));
            }
            if same(&self.state_exit_callbacks[j].0, state) {
                self.state_exit_callbacks[j].1.call(state);
                proof {
                    fired = fired.push(Firing::StateExit { slot: j as nat, state: *state });
                }
            }
            j += 1;
        }
        proof {
            assert(keys.take(keys.len() as int) =~= keys);
        }
        Ghost(fired)
    }

    /// Trigger transition callbacks: those for any transition, then those for
    /// `from_state` and `input`. The calls made are returned, in their order.
    pub fn trigger_transition(
        &self,
        from_state: &SM::State,
        input: &SM::Input,
        to_state: &SM::State,
    ) -> (fired: Ghost<Seq<Firing<SM::State, SM::Input>>>)
        requires
            self.wf(),
            plain_machine::<SM>(),
        ensures
            fired@ == self@.transition_firings(*from_state, *input, *to_state),
            self.all_completed(fired@),
    {
        let ghost mut fired: Seq<Firing<SM::State, SM::Input>> = Seq::empty();
        let mut i: usize = 0;
        while i < self.global_transition_callbacks.len()
            invariant
                self.wf(),
                i <= self.global_transition_callbacks.len(),
                fired == Seq::new(
                    i as nat,
                    |k: int|
                        Firing::AnyTransition {
                            slot: k as nat,
                            from: *from_state,
                            input: *input,
                            to: *to_state,
                        },
                ),
                self.all_completed(fired),
            decreases self.global_transition_callbacks.len() - i,
        {
            self.global_transition_callbacks[i].call(from_state, input, to_state);
            proof {
                fired = fired.push(
                    Firing::AnyTransition {
                        slot: i as nat,
                        from: *from_state,
                        input: *input,
                        to: *to_state,
                    },
                );
            }
            i += 1;
        }
        let ghost general = fired;
        let ghost keys = self@.on_transition;
        let mut j: usize = 0;
        proof {
            assert(keys.take(0) =~= Seq::empty());
        }
        while j < self.transition_callbacks.len()
            invariant
                self.wf(),
                plain_machine::<SM>(),
                j <= self.transition_callbacks.len(),
                keys == self@.on_transition,
                fired == general + keyed_slots(
                    keys.take(j as int),
                    (*from_state, *input),
                ).map_values(
                    |k: nat|
                        Firing::OnTransition {
                            slot: k,
                            from: *from_state,
                            input: *input,
                            to: *to_state,
                        },
                ),
                self.all_completed(fired),
            decreases self.transition_callbacks.len() - j,
        {
            proof {
                assert(keys.take(j + 1).drop_last() =~= keys.take(j as int));
            }
            let key = &self.transition_callbacks[j].0;
            if same(&key.0, from_state) && same(&key.1, input) {
                self.transition_callbacks[j].1.call(from_state, input, to_state);
                proof {
                    fired = fired.push(
                        Firing::OnTransition {
                            slot: j as nat,
                            from: *from_state,
                            input: *input,
                            to: *to_state,
                        },
                    );
                }
            }
            j += 1;
        }
        proof {
            assert(keys.take(keys.len() as int) =~= keys);
        }
        Ghost(fired)
    }

    /// Clear all callbacks.
    pub fn clear(&mut self)
        ensures
            final(self).wf(),
            final(self)@ == RegistryView::<SM::State, SM::Input>::empty(),
    {
        self.state_entry_callbacks.clear();
        self.state_exit_callbacks.clear();
        self.transition_callbacks.clear();
        self.global_entry_callbacks.clear();
        self.global_exit_callbacks.clear();
        self.global_transition_callbacks.clear();
        assert(self@.on_entry =~= Seq::empty());
        assert(self@.on_exit =~= Seq::empty());
        assert(self@.on_transition =~= Seq::empty());
    }

    /// Get the number of registered callbacks.
    pub fn callback_count(&self) -> (r: usize)
        requires
            self.wf(),
        ensures
            r == self@.total(),
    {
        self.state_entry_callbacks.len() + self.state_exit_callbacks.len()
            + self.transition_callbacks.len() + self.global_entry_callbacks.len()
            + self.global_exit_callbacks.len() + self.global_transition_callbacks.len()
    }
}

impl<SM: StateMachine> Default for CallbackRegistry<SM> {
    fn default() -> (r: Self)
        ensures
            r.wf(),
            r@ == RegistryView::<SM::State, SM::Input>::empty(),
    {
        Self::new()
    }
}

} // verus!
