use std::sync::{Arc, Mutex};
use yasm::{CallbackRegistry, StateMachine, StateMachineInstance};

#[derive(Debug, Clone, Hash, PartialEq, Eq)]
enum State {
    StateA,
    StateB,
    StateC,
}

#[derive(Debug, Clone, Hash, PartialEq, Eq)]
enum Input {
    Input1,
    Input2,
}

struct TestStateMachine;

impl StateMachine for TestStateMachine {
    type State = State;
    type Input = Input;

    fn states() -> Vec<State> {
        vec![State::StateA, State::StateB, State::StateC]
    }

    fn inputs() -> Vec<Input> {
        vec![Input::Input1, Input::Input2]
    }

    fn valid_inputs(state: &State) -> Vec<Input> {
        match state {
            State::StateA => vec![Input::Input1],
            State::StateB => vec![Input::Input2],
            State::StateC => vec![Input::Input1],
        }
    }

    fn next_state(state: &State, input: &Input) -> Option<State> {
        match (state, input) {
            (State::StateA, Input::Input1) => Some(State::StateB),
            (State::StateB, Input::Input2) => Some(State::StateC),
            (State::StateC, Input::Input1) => Some(State::StateA),
            _ => None,
        }
    }

    fn initial_state() -> State {
        State::StateA
    }

    fn state_name(state: &State) -> String {
        format!("{:?}", state)
    }

    fn input_name(input: &Input) -> String {
        format!("{:?}", input)
    }
}

#[test]
fn test_callback_registry() {
    let mut registry = CallbackRegistry::<TestStateMachine>::new();
    let counter = Arc::new(Mutex::new(0));

    // Register state entry callback
    let counter_clone = Arc::clone(&counter);
    registry.on_state_entry(State::StateB, move |_state| {
        *counter_clone.lock().unwrap() += 1;
    });

    // Trigger entry callback
    registry.trigger_state_entry(&State::StateB);
    assert_eq!(*counter.lock().unwrap(), 1);

    // Register global callback
    let counter_clone = Arc::clone(&counter);
    registry.on_any_state_entry(move |_state| {
        *counter_clone.lock().unwrap() += 10;
    });

    // Trigger entry callback again
    registry.trigger_state_entry(&State::StateB);
    // Expected: 1 (initial) + 1 (StateB callback) + 10 (global callback) = 12
    assert_eq!(*counter.lock().unwrap(), 12);

    assert!(registry.callback_count() > 0);
    assert_eq!(registry.callback_count(), 2); // 1 state-specific + 1 global
}

fn recorder(calls: &Arc<Mutex<Vec<String>>>, label: &'static str) -> impl Fn(&State) + Send + Sync {
    let log = Arc::clone(calls);
    move |state| log.lock().unwrap().push(format!("{} {:?}", label, state))
}

fn transition_recorder(
    calls: &Arc<Mutex<Vec<String>>>,
    label: &'static str,
) -> impl Fn(&State, &Input, &State) + Send + Sync {
    let log = Arc::clone(calls);
    move |from, input, to| {
        log.lock().unwrap().push(format!("{} {:?} {:?} {:?}", label, from, input, to))
    }
}

#[test]
fn callbacks_fire_in_order() {
    let calls: Arc<Mutex<Vec<String>>> = Arc::new(Mutex::new(Vec::new()));
    let mut sm = StateMachineInstance::<TestStateMachine>::new();

    // registered in an order other than that of the calls
    sm.on_state_entry(State::StateB, recorder(&calls, "entry"));
    sm.on_state_entry(State::StateC, recorder(&calls, "entry elsewhere"));
    sm.on_any_state_entry(recorder(&calls, "any entry"));
    sm.on_transition(State::StateA, Input::Input1, transition_recorder(&calls, "on"));
    sm.on_transition(State::StateB, Input::Input2, transition_recorder(&calls, "on elsewhere"));
    sm.on_any_transition(transition_recorder(&calls, "any"));
    sm.on_state_exit(State::StateA, recorder(&calls, "exit"));
    sm.on_state_exit(State::StateB, recorder(&calls, "exit elsewhere"));
    sm.on_any_state_exit(recorder(&calls, "any exit"));
    sm.on_state_entry(State::StateB, recorder(&calls, "second entry"));
    assert_eq!(sm.callback_count(), 10);

    assert_eq!(sm.transition(Input::Input1), Ok(State::StateB));
    assert_eq!(
        *calls.lock().unwrap(),
        vec![
            "any exit StateA".to_string(),
            "exit StateA".to_string(),
            "any StateA Input1 StateB".to_string(),
            "on StateA Input1 StateB".to_string(),
            "any entry StateB".to_string(),
            "entry StateB".to_string(),
            "second entry StateB".to_string(),
        ]
    );
}

#[test]
fn cleared_callbacks_are_not_called() {
    let calls: Arc<Mutex<Vec<String>>> = Arc::new(Mutex::new(Vec::new()));
    let mut registry = CallbackRegistry::<TestStateMachine>::new();
    registry.on_state_exit(State::StateA, recorder(&calls, "exit"));
    registry.on_any_state_exit(recorder(&calls, "any exit"));
    registry.on_transition(State::StateA, Input::Input1, transition_recorder(&calls, "on"));
    registry.on_any_transition(transition_recorder(&calls, "any"));
    assert_eq!(registry.callback_count(), 4);

    registry.trigger_state_exit(&State::StateA);
    registry.trigger_state_exit(&State::StateB);
    registry.trigger_transition(&State::StateA, &Input::Input1, &State::StateB);
    registry.trigger_transition(&State::StateA, &Input::Input2, &State::StateB);
    assert_eq!(
        *calls.lock().unwrap(),
        vec![
            "any exit StateA".to_string(),
            "exit StateA".to_string(),
            "any exit StateB".to_string(),
            "any StateA Input1 StateB".to_string(),
            "on StateA Input1 StateB".to_string(),
            "any StateA Input2 StateB".to_string(),
        ]
    );

    registry.clear();
    assert_eq!(registry.callback_count(), 0);
    registry.trigger_state_exit(&State::StateA);
    registry.trigger_transition(&State::StateA, &Input::Input1, &State::StateB);
    assert_eq!(calls.lock().unwrap().len(), 6);
}

#[test]
fn callbacks_registered_through_the_registry_of_an_instance() {
    let calls: Arc<Mutex<Vec<String>>> = Arc::new(Mutex::new(Vec::new()));
    let mut sm = StateMachineInstance::<TestStateMachine>::default();
    sm.callback_registry().on_any_state_entry(recorder(&calls, "any entry"));
    assert_eq!(sm.callback_registry_ref().callback_count(), 1);
    sm.transition(Input::Input1).unwrap();
    assert_eq!(*calls.lock().unwrap(), vec!["any entry StateB".to_string()]);
}
