use std::sync::{Arc, Mutex};
use yasm::{StateMachine, StateMachineDoc, StateMachineInstance};

#[derive(Debug, Clone, Hash, PartialEq, Eq)]
enum State {
    StateA,
    StateB,
}

#[allow(non_camel_case_types)]
#[derive(Debug, Clone, Hash, PartialEq, Eq)]
enum Input {
    Action,
    _HiddenAction,
    _Debug,
}

struct TestMachine;

impl StateMachine for TestMachine {
    type State = State;
    type Input = Input;

    fn states() -> Vec<State> {
        vec![State::StateA, State::StateB]
    }

    fn inputs() -> Vec<Input> {
        vec![Input::Action, Input::_HiddenAction, Input::_Debug]
    }

    fn valid_inputs(_state: &State) -> Vec<Input> {
        vec![Input::Action, Input::_HiddenAction, Input::_Debug]
    }

    fn next_state(state: &State, input: &Input) -> Option<State> {
        match (state, input) {
            (State::StateA, Input::Action) => Some(State::StateB),
            (State::StateB, Input::Action) => Some(State::StateA),
            (State::StateA, Input::_HiddenAction) => Some(State::StateA),
            (State::StateB, Input::_HiddenAction) => Some(State::StateB),
            (State::StateA, Input::_Debug) => Some(State::StateA),
            (State::StateB, Input::_Debug) => Some(State::StateB),
        }
    }

    fn initial_state() -> State {
        State::StateA
    }

    fn state_name(state: &State) -> String {
        format!("{:?}", state)
    }

    fn input_name(input: &Input) -> String {
        format!("{:?}", input)
    }
}

#[test]
fn test_underscore_inputs_excluded_from_docs() {
    let mermaid = StateMachineDoc::<TestMachine>::generate_mermaid();

    // Should contain normal actions
    assert!(mermaid.contains("Action"));

    // Should not contain underscore-prefixed actions
    assert!(!mermaid.contains("_HiddenAction"));
    assert!(!mermaid.contains("_Debug"));

    let table = StateMachineDoc::<TestMachine>::generate_transition_table();

    // Should contain normal actions
    assert!(table.contains("Action"));

    // Should not contain underscore-prefixed actions
    assert!(!table.contains("_HiddenAction"));
    assert!(!table.contains("_Debug"));
}

#[test]
fn test_underscore_inputs_still_functional() {
    let mut sm = StateMachineInstance::<TestMachine>::new();
    assert_eq!(*sm.current_state(), State::StateA);

    // Test that underscore inputs are still valid
    let valid_inputs = sm.valid_inputs();
    assert!(valid_inputs.contains(&Input::Action));
    assert!(valid_inputs.contains(&Input::_HiddenAction));
    assert!(valid_inputs.contains(&Input::_Debug));

    // Test underscore input transition functionality
    let result = sm.transition(Input::_HiddenAction);
    assert!(result.is_ok());
    assert_eq!(*sm.current_state(), State::StateA);

    let result = sm.transition(Input::_Debug);
    assert!(result.is_ok());
    assert_eq!(*sm.current_state(), State::StateA);

    // Test normal transition
    let result = sm.transition(Input::Action);
    assert!(result.is_ok());
    assert_eq!(*sm.current_state(), State::StateB);
}

#[test]
fn hidden_inputs_are_told_by_their_name() {
    assert!(StateMachineDoc::<TestMachine>::should_include_input(&Input::Action));
    assert!(!StateMachineDoc::<TestMachine>::should_include_input(&Input::_HiddenAction));
    assert!(!StateMachineDoc::<TestMachine>::should_include_input(&Input::_Debug));
}

#[test]
fn hidden_inputs_count_in_the_statistics() {
    let stats = StateMachineDoc::<TestMachine>::generate_statistics();
    assert_eq!(
        stats,
        "# State Machine Statistics\n\n\
         - **Number of States**: 2\n\
         - **Number of Input Types**: 3\n\
         - **Number of Transitions**: 2\n\
         - **Number of Self-loops**: 4\n\
         - **Total Transitions**: 6\n\
         - **Initial State**: StateA\n"
    );
}

#[test]
fn hidden_self_loops_leave_the_diagram() {
    let mermaid = StateMachineDoc::<TestMachine>::generate_mermaid();
    assert_eq!(
        mermaid,
        "stateDiagram-v2\n\
         \x20   [*] --> StateA\n\
         \x20   StateA --> StateB : Action\n\
         \x20   StateB --> StateA : Action\n"
    );
}

#[test]
fn a_self_loop_fires_transition_callbacks_only() {
    let calls: Arc<Mutex<Vec<String>>> = Arc::new(Mutex::new(Vec::new()));
    let mut sm = StateMachineInstance::<TestMachine>::new();

    let log = Arc::clone(&calls);
    sm.on_any_state_exit(move |state| log.lock().unwrap().push(format!("any exit {:?}", state)));
    let log = Arc::clone(&calls);
    sm.on_state_exit(State::StateA, move |state| {
        log.lock().unwrap().push(format!("exit {:?}", state))
    });
    let log = Arc::clone(&calls);
    sm.on_any_state_entry(move |state| log.lock().unwrap().push(format!("any entry {:?}", state)));
    let log = Arc::clone(&calls);
    sm.on_state_entry(State::StateA, move |state| {
        log.lock().unwrap().push(format!("entry {:?}", state))
    });
    let log = Arc::clone(&calls);
    sm.on_any_transition(move |from, input, to| {
        log.lock().unwrap().push(format!("any {:?} {:?} {:?}", from, input, to))
    });
    let log = Arc::clone(&calls);
    sm.on_transition(State::StateA, Input::_Debug, move |from, input, to| {
        log.lock().unwrap().push(format!("on {:?} {:?} {:?}", from, input, to))
    });

    assert_eq!(sm.transition(Input::_Debug), Ok(State::StateA));
    assert_eq!(
        *calls.lock().unwrap(),
        vec!["any StateA _Debug StateA".to_string(), "on StateA _Debug StateA".to_string()]
    );
    // a self loop is a transition like any other to the history
    assert_eq!(sm.history_len(), 1);
    assert_eq!(sm.history()[0], (State::StateA, Input::_Debug));
}
