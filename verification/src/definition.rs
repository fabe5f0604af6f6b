//! The description of a machine, and what the engine assumes of it.
use vstd::prelude::*;
use vstd::std_specs::cmp::PartialEqSpec;

verus! {

/// The description of one deterministic state machine.
///
/// An implementation gives the seven functions of the description. Beside
/// each stands a spec function, which is what the contracts of the engine
/// speak of. An implementation that is verified defines the spec functions,
/// as the table of the machine, and proves that its functions return what
/// they say. One that leaves them as they are takes each to be what its
/// function returns, and the engine is then specified for it as far as its
/// functions return the same for the same arguments: see [`faithful`].
pub trait StateMachine {
    /// The states of the machine.
    type State: Clone + core::fmt::Debug + core::hash::Hash + Eq;

    /// The inputs of the machine.
    type Input: Clone + core::fmt::Debug + core::hash::Hash + Eq;

    /// All states, in the order in which the description lists them.
    open spec fn spec_states() -> Seq<Self::State> {
        (choose|states: Vec<Self::State>| call_ensures(Self::states, (), states))@
    }

    /// All inputs, in the order in which the description lists them.
    open spec fn spec_inputs() -> Seq<Self::Input> {
        (choose|inputs: Vec<Self::Input>| call_ensures(Self::inputs, (), inputs))@
    }

    /// The inputs that `state` accepts.
    open spec fn spec_valid_inputs(state: Self::State) -> Seq<Self::Input> {
        (choose|inputs: Vec<Self::Input>| call_ensures(Self::valid_inputs, (&state,), inputs))@
    }

    /// The state that `input` leads to from `state`, if the table has one.
    open spec fn spec_next_state(state: Self::State, input: Self::Input) -> Option<Self::State> {
        choose|next: Option<Self::State>| call_ensures(Self::next_state, (&state, &input), next)
    }

    /// The state in which every instance starts.
    open spec fn spec_initial_state() -> Self::State {
        choose|state: Self::State| call_ensures(Self::initial_state, (), state)
    }

    /// The display name of `state`.
    open spec fn spec_state_name(state: Self::State) -> Seq<char> {
        (choose|name: String| call_ensures(Self::state_name, (&state,), name))@
    }

    /// The display name of `input`.
    open spec fn spec_input_name(input: Self::Input) -> Seq<char> {
        (choose|name: String| call_ensures(Self::input_name, (&input,), name))@
    }

    /// Get all possible states.
    fn states() -> Vec<Self::State>;

    /// Get all possible inputs.
    fn inputs() -> Vec<Self::Input>;

    /// Get the valid inputs for a given state.
    fn valid_inputs(state: &Self::State) -> Vec<Self::Input>;

    /// The next state for a state and an input, or `None` where the table has
    /// no entry for the pair.
    fn next_state(state: &Self::State, input: &Self::Input) -> Option<Self::State>;

    /// Get the initial state.
    fn initial_state() -> Self::State;

    /// Get the display name of a state.
    fn state_name(state: &Self::State) -> String;

    /// Get the display name of an input.
    fn input_name(input: &Self::Input) -> String;
}

/// The description of `SM` is fixed: each of its functions returns what the
/// spec function beside it says, whenever it is asked.
///
/// For a description that defines its spec functions this says that its
/// functions keep to its table. For one that does not it says that each
/// function returns the same for the same arguments: that a state and an
/// input have at most one next state.
pub open spec fn faithful<SM: StateMachine>() -> bool {
    &&& forall|states: Vec<SM::State>| #[trigger]
        call_ensures(SM::states, (), states) ==> states@ == SM::spec_states()
    &&& forall|inputs: Vec<SM::Input>| #[trigger]
        call_ensures(SM::inputs, (), inputs) ==> inputs@ == SM::spec_inputs()
    &&& forall|state: SM::State, inputs: Vec<SM::Input>| #[trigger]
        call_ensures(SM::valid_inputs, (&state,), inputs) ==> inputs@ == SM::spec_valid_inputs(
            state,
        )
    &&& forall|state: SM::State, input: SM::Input, next: Option<SM::State>| #[trigger]
        call_ensures(SM::next_state, (&state, &input), next) ==> next == SM::spec_next_state(
            state,
            input,
        )
    &&& forall|state: SM::State| #[trigger]
        call_ensures(SM::initial_state, (), state) ==> state == SM::spec_initial_state()
    &&& forall|state: SM::State, name: String| #[trigger]
        call_ensures(SM::state_name, (&state,), name) ==> name@ == SM::spec_state_name(state)
    &&& forall|input: SM::Input, name: String| #[trigger]
        call_ensures(SM::input_name, (&input,), name) ==> name@ == SM::spec_input_name(input)
}

/// `T` is a type of plain values: `==` holds of two values exactly when they
/// are the same value, and a clone of a value is that value.
pub open spec fn plain_values<T: PartialEq + Clone>() -> bool {
    &&& T::obeys_eq_spec()
    &&& forall|a: T, b: T| #[trigger] a.eq_spec(&b) <==> a == b
    &&& forall|a: T, b: T| #[trigger] call_ensures(T::clone, (&a,), b) ==> a == b
}

/// The states and the inputs of `SM` are plain values.
pub open spec fn plain_machine<SM: StateMachine>() -> bool {
    plain_values::<SM::State>() && plain_values::<SM::Input>()
}

/// Every transition of `SM` ends in one of its listed states.
pub open spec fn closed_machine<SM: StateMachine>() -> bool {
    forall|state: SM::State, input: SM::Input|
        (#[trigger] SM::spec_next_state(state, input)) matches Some(next)
            ==> SM::spec_states().contains(next)
}

/// What the engine asks of every machine: its description is fixed, and its
/// states and inputs are plain values.
pub open spec fn lawful<SM: StateMachine>() -> bool {
    faithful::<SM>() && plain_machine::<SM>()
}

/// `SM` is a finite machine with a fixed description over plain values: what
/// the graph queries need to come to an end and to recognise a state that
/// they have seen.
pub open spec fn well_formed<SM: StateMachine>() -> bool {
    lawful::<SM>() && closed_machine::<SM>()
}

/// `a == b`, for plain values.
pub(crate) fn same<T: PartialEq + Clone>(a: &T, b: &T) -> (r: bool)
    requires
        plain_values::<T>(),
    ensures
        r == (*a == *b),
{
    *a == *b
}

/// A copy of `a`, for plain values.
pub(crate) fn copy_of<T: PartialEq + Clone>(a: &T) -> (r: T)
    requires
        plain_values::<T>(),
    ensures
        r == *a,
{
    a.clone()
}

/// Whether `items` holds `item`.
pub(crate) fn holds<T: PartialEq + Clone>(items: &Vec<T>, item: &T) -> (r: bool)
    requires
        plain_values::<T>(),
    ensures
        r == items@.contains(*item),
{
    let mut i: usize = 0;
    while i < items.len()
        invariant
            plain_values::<T>(),
            i <= items.len(),
            forall|k: int| 0 <= k < i ==> items@[k] != *item,
        decreases items.len() - i,
    {
        if same(&items[i], item) {
            return true;
        }
        i += 1;
    }
    false
}

} // verus!
