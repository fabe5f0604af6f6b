//! A door that can be opened, closed and locked: a machine whose description
//! is verified.
//!
//! The description defines its table as spec functions, proves that its
//! functions return what the table says, and proves that it is a finite
//! machine over plain values: all that the engine asks of a machine.
use vstd::prelude::*;
use vstd::std_specs::cmp::PartialEqSpecImpl;
use crate::definition::{well_formed, StateMachine};

verus! {

/// The states of the door.
#[derive(Debug, Hash, Eq)]
pub enum DoorState {
    Closed,
    Open,
    Locked,
}

/// What can be done to the door.
#[derive(Debug, Hash, Eq)]
pub enum DoorInput {
    OpenDoor,
    CloseDoor,
    Lock,
    Unlock,
}

impl Clone for DoorState {
    fn clone(&self) -> (r: Self)
        ensures
            r == *self,
    {
        match self {
            DoorState::Closed => DoorState::Closed,
            DoorState::Open => DoorState::Open,
            DoorState::Locked => DoorState::Locked,
        }
    }
}

impl PartialEq for DoorState {
    fn eq(&self, other: &Self) -> (r: bool) {
        match (self, other) {
            (DoorState::Closed, DoorState::Closed) => true,
            (DoorState::Open, DoorState::Open) => true,
            (DoorState::Locked, DoorState::Locked) => true,
            _ => false,
        }
    }
}

impl PartialEqSpecImpl for DoorState {
    open spec fn obeys_eq_spec() -> bool {
        true
    }

    open spec fn eq_spec(&self, other: &Self) -> bool {
        *self == *other
    }
}

impl Clone for DoorInput {
    fn clone(&self) -> (r: Self)
        ensures
            r == *self,
    {
        match self {
            DoorInput::OpenDoor => DoorInput::OpenDoor,
            DoorInput::CloseDoor => DoorInput::CloseDoor,
            DoorInput::Lock => DoorInput::Lock,
            DoorInput::Unlock => DoorInput::Unlock,
        }
    }
}

impl PartialEq for DoorInput {
    fn eq(&self, other: &Self) -> (r: bool) {
        match (self, other) {
            (DoorInput::OpenDoor, DoorInput::OpenDoor) => true,
            (DoorInput::CloseDoor, DoorInput::CloseDoor) => true,
            (DoorInput::Lock, DoorInput::Lock) => true,
            (DoorInput::Unlock, DoorInput::Unlock) => true,
            _ => false,
        }
    }
}

impl PartialEqSpecImpl for DoorInput {
    open spec fn obeys_eq_spec() -> bool {
        true
    }

    open spec fn eq_spec(&self, other: &Self) -> bool {
        *self == *other
    }
}

/// The door: closed at first; a closed door can be opened or locked, an open
/// door closed, a locked door unlocked.
pub struct Door;

impl StateMachine for Door {
    type State = DoorState;

    type Input = DoorInput;

    open spec fn spec_states() -> Seq<DoorState> {
        seq![DoorState::Closed, DoorState::Open, DoorState::Locked]
    }

    open spec fn spec_inputs() -> Seq<DoorInput> {
        seq![DoorInput::OpenDoor, DoorInput::CloseDoor, DoorInput::Lock, DoorInput::Unlock]
    }

    open spec fn spec_valid_inputs(state: DoorState) -> Seq<DoorInput> {
        match state {
            DoorState::Closed => seq![DoorInput::OpenDoor, DoorInput::Lock],
            DoorState::Open => seq![DoorInput::CloseDoor],
            DoorState::Locked => seq![DoorInput::Unlock],
        }
    }

    open spec fn spec_next_state(state: DoorState, input: DoorInput) -> Option<DoorState> {
        match (state, input) {
            (DoorState::Closed, DoorInput::OpenDoor) => Some(DoorState::Open),
            (DoorState::Open, DoorInput::CloseDoor) => Some(DoorState::Closed),
            (DoorState::Closed, DoorInput::Lock) => Some(DoorState::Locked),
            (DoorState::Locked, DoorInput::Unlock) => Some(DoorState::Closed),
            _ => None,
        }
    }

    open spec fn spec_initial_state() -> DoorState {
        DoorState::Closed
    }

    open spec fn spec_state_name(state: DoorState) -> Seq<char> {
        match state {
            DoorState::Closed => "Closed"@,
            DoorState::Open => "Open"@,
            DoorState::Locked => "Locked"@,
        }
    }

    open spec fn spec_input_name(input: DoorInput) -> Seq<char> {
        match input {
            DoorInput::OpenDoor => "OpenDoor"@,
            DoorInput::CloseDoor => "CloseDoor"@,
            DoorInput::Lock => "Lock"@,
            DoorInput::Unlock => "Unlock"@,
        }
    }

    fn states() -> (r: Vec<DoorState>)
        ensures
            r@ == Self::spec_states(),
    {
        let mut states = Vec::new();
        states.push(DoorState::Closed);
        states.push(DoorState::Open);
        states.push(DoorState::Locked);
        assert(states@ =~= Self::spec_states());
        states
    }

    fn inputs() -> (r: Vec<DoorInput>)
        ensures
            r@ == Self::spec_inputs(),
    {
        let mut inputs = Vec::new();
        inputs.push(DoorInput::OpenDoor);
        inputs.push(DoorInput::CloseDoor);
        inputs.push(DoorInput::Lock);
        inputs.push(DoorInput::Unlock);
        assert(inputs@ =~= Self::spec_inputs());
        inputs
    }

    fn valid_inputs(state: &DoorState) -> (r: Vec<DoorInput>)
        ensures
            r@ == Self::spec_valid_inputs(*state),
    {
        let mut inputs = Vec::new();
        match state {
            DoorState::Closed => {
                inputs.push(DoorInput::OpenDoor);
                inputs.push(DoorInput::Lock);
            },
            DoorState::Open => {
                inputs.push(DoorInput::CloseDoor);
            },
            DoorState::Locked => {
                inputs.push(DoorInput::Unlock);
            },
        }
        assert(inputs@ =~= Self::spec_valid_inputs(*state));
        inputs
    }

    fn next_state(state: &DoorState, input: &DoorInput) -> (r: Option<DoorState>)
        ensures
            r == Self::spec_next_state(*state, *input),
    {
        match (state, input) {
            (DoorState::Closed, DoorInput::OpenDoor) => Some(DoorState::Open),
            (DoorState::Open, DoorInput::CloseDoor) => Some(DoorState::Closed),
            (DoorState::Closed, DoorInput::Lock) => Some(DoorState::Locked),
            (DoorState::Locked, DoorInput::Unlock) => Some(DoorState::Closed),
            _ => None,
        }
    }

    fn initial_state() -> (r: DoorState)
        ensures
            r == Self::spec_initial_state(),
    {
        DoorState::Closed
    }

    fn state_name(state: &DoorState) -> (r: String)
        ensures
            r@ == Self::spec_state_name(*state),
    {
        match state {
            DoorState::Closed => String::from_str("Closed"),
            DoorState::Open => String::from_str("Open"),
            DoorState::Locked => String::from_str("Locked"),
        }
    }

    fn input_name(input: &DoorInput) -> (r: String)
        ensures
            r@ == Self::spec_input_name(*input),
    {
        match input {
            DoorInput::OpenDoor => String::from_str("OpenDoor"),
            DoorInput::CloseDoor => String::from_str("CloseDoor"),
            DoorInput::Lock => String::from_str("Lock"),
            DoorInput::Unlock => String::from_str("Unlock"),
        }
    }
}

/// The door is a finite machine with a fixed description over plain values,
/// and its initial state is one of its listed states.
pub proof fn lemma_door_well_formed()
    ensures
        well_formed::<Door>(),
        Door::spec_states().contains(Door::spec_initial_state()),
{
    let states = Door::spec_states();
    assert(states[0] == DoorState::Closed);
    assert(states[1] == DoorState::Open);
    assert(states[2] == DoorState::Locked);
    assert(forall|a: DoorState, b: DoorState|
        #[trigger] call_ensures(DoorState::clone, (&a,), b) ==> a == b);
    assert(forall|a: DoorInput, b: DoorInput|
        #[trigger] call_ensures(DoorInput::clone, (&a,), b) ==> a == b);
}

} // verus!
