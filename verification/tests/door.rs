use std::sync::{Arc, Mutex};
use yasm::instance::TransitionError;
use yasm::door::{Door, DoorInput as Input, DoorState as State};
use yasm::{StateMachine, StateMachineDoc, StateMachineInstance, StateMachineQuery};

/// A description with a gap: `Open` accepts `Lock`, but the table has no
/// next state for it.
struct BrokenDoor;

impl StateMachine for BrokenDoor {
    type State = State;
    type Input = Input;

    fn states() -> Vec<State> {
        Door::states()
    }

    fn inputs() -> Vec<Input> {
        Door::inputs()
    }

    fn valid_inputs(state: &State) -> Vec<Input> {
        match state {
            State::Open => vec![Input::CloseDoor, Input::Lock],
            other => Door::valid_inputs(other),
        }
    }

    fn next_state(state: &State, input: &Input) -> Option<State> {
        Door::next_state(state, input)
    }

    fn initial_state() -> State {
        State::Closed
    }

    fn state_name(state: &State) -> String {
        Door::state_name(state)
    }

    fn input_name(input: &Input) -> String {
        Door::input_name(input)
    }
}

#[test]
fn lock_is_refused_while_the_door_is_open() {
    let mut door = StateMachineInstance::<Door>::new();
    assert_eq!(door.transition(Input::OpenDoor), Ok(State::Open));
    assert_eq!(
        door.transition(Input::Lock),
        Err(TransitionError::InvalidInput { state: State::Open, input: Input::Lock })
    );
    assert_eq!(*door.current_state(), State::Open);
    assert_eq!(door.history_len(), 1);
    assert_eq!(door.history()[0], (State::Closed, Input::OpenDoor));
}

#[test]
fn history_of_size_one_keeps_the_last_transition() {
    let mut door = StateMachineInstance::<Door>::with_max_history(1);
    door.transition(Input::OpenDoor).unwrap();
    door.transition(Input::CloseDoor).unwrap();
    assert_eq!(door.history().len(), 1);
    assert_eq!(door.history()[0], (State::Open, Input::CloseDoor));
}

#[test]
fn a_refused_input_calls_no_callback() {
    let calls = Arc::new(Mutex::new(0));
    let mut door = StateMachineInstance::<Door>::new();
    let seen = Arc::clone(&calls);
    door.on_any_transition(move |_from, _input, _to| *seen.lock().unwrap() += 1);
    let seen = Arc::clone(&calls);
    door.on_any_state_exit(move |_state| *seen.lock().unwrap() += 1);
    let seen = Arc::clone(&calls);
    door.on_any_state_entry(move |_state| *seen.lock().unwrap() += 1);
    assert!(!door.can_accept(&Input::Unlock));
    assert_eq!(
        door.transition(Input::Unlock),
        Err(TransitionError::InvalidInput { state: State::Closed, input: Input::Unlock })
    );
    assert_eq!(*calls.lock().unwrap(), 0);
    assert_eq!(*door.current_state(), State::Closed);
    assert!(door.history_is_empty());
}

#[test]
fn a_gap_in_the_table_is_no_transition() {
    let calls = Arc::new(Mutex::new(0));
    let mut door = StateMachineInstance::<BrokenDoor>::new();
    let seen = Arc::clone(&calls);
    door.on_any_transition(move |_from, _input, _to| *seen.lock().unwrap() += 1);
    door.transition(Input::OpenDoor).unwrap();
    assert_eq!(*calls.lock().unwrap(), 1);
    assert!(door.can_accept(&Input::Lock));
    assert_eq!(
        door.transition(Input::Lock),
        Err(TransitionError::NoTransition { state: State::Open, input: Input::Lock })
    );
    assert_eq!(*calls.lock().unwrap(), 1);
    assert_eq!(*door.current_state(), State::Open);
    assert_eq!(door.history_len(), 1);
}

#[test]
fn door_queries() {
    assert_eq!(
        StateMachineQuery::<Door>::states_leading_to(&State::Closed),
        vec![State::Open, State::Locked]
    );
    assert_eq!(
        StateMachineQuery::<Door>::states_leading_to(&State::Open),
        vec![State::Closed]
    );
    assert!(StateMachineQuery::<Door>::has_edge(&State::Closed, &State::Locked));
    assert!(!StateMachineQuery::<Door>::has_edge(&State::Open, &State::Locked));
    assert!(StateMachineQuery::<Door>::has_path(&State::Open, &State::Locked));
    assert!(StateMachineQuery::<Door>::has_path(&State::Locked, &State::Locked));
    assert_eq!(
        StateMachineQuery::<Door>::shortest_path(&State::Open, &State::Locked),
        Some(vec![State::Open, State::Closed, State::Locked])
    );
    assert!(StateMachineQuery::<Door>::is_strongly_connected());
    assert_eq!(
        StateMachineQuery::<Door>::reachable_states(&State::Locked),
        vec![State::Locked, State::Closed, State::Open]
    );
}

#[test]
fn door_description() {
    assert_eq!(Door::states(), vec![State::Closed, State::Open, State::Locked]);
    assert_eq!(
        Door::inputs(),
        vec![Input::OpenDoor, Input::CloseDoor, Input::Lock, Input::Unlock]
    );
    assert_eq!(Door::initial_state(), State::Closed);
    assert_eq!(Door::valid_inputs(&State::Closed), vec![Input::OpenDoor, Input::Lock]);
    assert_eq!(Door::next_state(&State::Locked, &Input::Unlock), Some(State::Closed));
    assert_eq!(Door::next_state(&State::Locked, &Input::Lock), None);
    assert_eq!(Door::state_name(&State::Locked), "Locked");
    assert_eq!(Door::input_name(&Input::CloseDoor), "CloseDoor");
    assert_eq!(State::Open.clone(), State::Open);
    assert!(State::Open != State::Closed);
    assert_eq!(Input::Lock.clone(), Input::Lock);
    assert!(Input::Lock != Input::Unlock);
}

#[test]
fn door_diagram() {
    assert_eq!(
        StateMachineDoc::<Door>::generate_mermaid(),
        "stateDiagram-v2\n\
         \x20   [*] --> Closed\n\
         \x20   Closed --> Open : OpenDoor\n\
         \x20   Closed --> Locked : Lock\n\
         \x20   Open --> Closed : CloseDoor\n\
         \x20   Locked --> Closed : Unlock\n"
    );
}
