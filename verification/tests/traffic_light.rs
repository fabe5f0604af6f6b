use yasm::{
    StateMachine, StateMachineDoc, StateMachineInstance, StateMachineQuery,
    DEFAULT_MAX_HISTORY_SIZE,
};

#[derive(Debug, Clone, Hash, PartialEq, Eq)]
enum State {
    Red,
    Yellow,
    Green,
}

#[derive(Debug, Clone, Hash, PartialEq, Eq)]
enum Input {
    Timer,
    Emergency,
}

struct TrafficLight;

impl StateMachine for TrafficLight {
    type State = State;
    type Input = Input;

    fn states() -> Vec<State> {
        vec![State::Red, State::Yellow, State::Green]
    }

    fn inputs() -> Vec<Input> {
        vec![Input::Timer, Input::Emergency]
    }

    fn valid_inputs(state: &State) -> Vec<Input> {
        match state {
            State::Red | State::Yellow | State::Green => vec![Input::Timer, Input::Emergency],
        }
    }

    fn next_state(state: &State, input: &Input) -> Option<State> {
        match (state, input) {
            (State::Red, Input::Timer) => Some(State::Green),
            (State::Green, Input::Timer) => Some(State::Yellow),
            (State::Yellow, Input::Timer) => Some(State::Red),
            (State::Red, Input::Emergency) => Some(State::Yellow),
            (State::Green, Input::Emergency) => Some(State::Red),
            (State::Yellow, Input::Emergency) => Some(State::Red),
        }
    }

    fn initial_state() -> State {
        State::Red
    }

    fn state_name(state: &State) -> String {
        format!("{:?}", state)
    }

    fn input_name(input: &Input) -> String {
        format!("{:?}", input)
    }
}

#[test]
fn test_deterministic_state_machine_basic() {
    let mut sm = StateMachineInstance::<TrafficLight>::new();
    assert_eq!(*sm.current_state(), State::Red);

    // Test valid transition
    let result = sm.transition(Input::Timer);
    assert!(result.is_ok());
    assert_eq!(*sm.current_state(), State::Green);
    assert_eq!(result.unwrap(), State::Green);

    // Continue transition
    let result = sm.transition(Input::Timer);
    assert!(result.is_ok());
    assert_eq!(*sm.current_state(), State::Yellow);
}

#[test]
fn test_history_size_default() {
    let sm = StateMachineInstance::<TrafficLight>::new();
    assert_eq!(sm.max_history_size(), DEFAULT_MAX_HISTORY_SIZE);

    let sm_default = StateMachineInstance::<TrafficLight>::default();
    assert_eq!(sm_default.max_history_size(), DEFAULT_MAX_HISTORY_SIZE);
}

#[test]
fn test_invalid_transition() {
    let mut sm = StateMachineInstance::<TrafficLight>::new();
    assert_eq!(*sm.current_state(), State::Red);

    // Test emergency transition - Red can transition to Yellow via Emergency input
    let result = sm.transition(Input::Emergency);
    assert!(result.is_ok());
    assert_eq!(*sm.current_state(), State::Yellow);
}

#[test]
fn test_state_machine_instance_methods() {
    let mut sm = StateMachineInstance::<TrafficLight>::new();

    // Test initial state
    assert_eq!(*sm.current_state(), State::Red);
    assert!(sm.history_is_empty());
    assert_eq!(sm.history_len(), 0);

    // Test valid input checking
    assert!(sm.can_accept(&Input::Timer));
    assert!(sm.can_accept(&Input::Emergency));

    // Test valid input list
    let valid_inputs = sm.valid_inputs();
    assert!(valid_inputs.contains(&Input::Timer));
    assert!(valid_inputs.contains(&Input::Emergency));

    // Execute transition
    sm.transition(Input::Timer).unwrap();
    assert_eq!(sm.history_len(), 1);
    assert!(!sm.history_is_empty());

    // Test reset
    sm.reset();
    assert_eq!(*sm.current_state(), State::Red);
    assert!(sm.history_is_empty());
}

#[test]
fn test_history_size_limit() {
    let mut sm = StateMachineInstance::<TrafficLight>::with_max_history(2);
    assert_eq!(sm.max_history_size(), 2);

    // Execute multiple transitions
    sm.transition(Input::Timer).unwrap(); // Red -> Green
    sm.transition(Input::Timer).unwrap(); // Green -> Yellow
    sm.transition(Input::Timer).unwrap(); // Yellow -> Red

    // History should only contain the last 2 transitions
    assert_eq!(sm.history().len(), 2);
    assert_eq!(sm.history()[0], (State::Green, Input::Timer));
    assert_eq!(sm.history()[1], (State::Yellow, Input::Timer));
}

#[test]
fn test_display_implementation() {
    assert_eq!(TrafficLight::state_name(&State::Red), "Red");
    assert_eq!(TrafficLight::input_name(&Input::Timer), "Timer");
}

#[test]
fn test_query_functions() {
    let reachable = StateMachineQuery::<TrafficLight>::reachable_states(&State::Red);
    assert!(reachable.contains(&State::Green));
    assert!(reachable.contains(&State::Yellow));

    let leading_to_red = StateMachineQuery::<TrafficLight>::states_leading_to(&State::Red);
    assert!(leading_to_red.contains(&State::Yellow));
    assert!(leading_to_red.contains(&State::Green));

    // Test path finding
    assert!(StateMachineQuery::<TrafficLight>::has_path(
        &State::Red,
        &State::Green
    ));

    // Test shortest path
    let path = StateMachineQuery::<TrafficLight>::shortest_path(&State::Red, &State::Green);
    assert!(path.is_some());
    let path = path.unwrap();
    assert_eq!(path[0], State::Red);
    assert_eq!(path[1], State::Green);
}

#[test]
fn test_mermaid_generation() {
    let mermaid = StateMachineDoc::<TrafficLight>::generate_mermaid();
    assert!(mermaid.contains("stateDiagram-v2"));
    assert!(mermaid.contains("Red"));
    assert!(mermaid.contains("Green"));
    assert!(mermaid.contains("Yellow"));
    assert!(mermaid.contains("Timer"));
    assert!(mermaid.contains("Emergency"));
}

#[test]
fn test_documentation_generation() {
    let stats = StateMachineDoc::<TrafficLight>::generate_statistics();
    assert!(stats.contains("Number of States"));
    assert!(stats.contains("Number of Transitions"));

    let full_doc = StateMachineDoc::<TrafficLight>::generate_full_documentation();
    assert!(full_doc.contains("State Machine Documentation"));
    assert!(full_doc.contains("State Transition Table"));
    assert!(full_doc.contains("State Diagram"));
}

#[test]
fn traffic_light_diagram_is_exact() {
    let mermaid = StateMachineDoc::<TrafficLight>::generate_mermaid();
    assert_eq!(
        mermaid,
        "stateDiagram-v2\n\
         \x20   [*] --> Red\n\
         \x20   Red --> Green : Timer\n\
         \x20   Red --> Yellow : Emergency\n\
         \x20   Yellow --> Red : Timer / Emergency\n\
         \x20   Green --> Yellow : Timer\n\
         \x20   Green --> Red : Emergency\n"
    );
}

#[test]
fn traffic_light_table_is_exact() {
    let table = StateMachineDoc::<TrafficLight>::generate_transition_table();
    assert_eq!(
        table,
        "# State Transition Table\n\n\
         | Current State | Input | Next State |\n\
         |---------------|-------|------------|\n\
         | Red | Timer | Green |\n\
         | Red | Emergency | Yellow |\n\
         | Yellow | Timer | Red |\n\
         | Yellow | Emergency | Red |\n\
         | Green | Timer | Yellow |\n\
         | Green | Emergency | Red |\n"
    );
}

#[test]
fn traffic_light_statistics_are_exact() {
    let stats = StateMachineDoc::<TrafficLight>::generate_statistics();
    assert_eq!(
        stats,
        "# State Machine Statistics\n\n\
         - **Number of States**: 3\n\
         - **Number of Input Types**: 2\n\
         - **Number of Transitions**: 6\n\
         - **Number of Self-loops**: 0\n\
         - **Total Transitions**: 6\n\
         - **Initial State**: Red\n"
    );
}

#[test]
fn traffic_light_full_documentation_is_its_parts() {
    let full = StateMachineDoc::<TrafficLight>::generate_full_documentation();
    let expected = format!(
        "# State Machine Documentation\n\n{}\n{}\n# State Diagram\n\n```mermaid\n{}```\n",
        StateMachineDoc::<TrafficLight>::generate_statistics(),
        StateMachineDoc::<TrafficLight>::generate_transition_table(),
        StateMachineDoc::<TrafficLight>::generate_mermaid()
    );
    assert_eq!(full, expected);
}

#[test]
fn traffic_light_is_strongly_connected() {
    assert!(StateMachineQuery::<TrafficLight>::is_strongly_connected());
    assert!(StateMachineQuery::<TrafficLight>::terminal_states().is_empty());
}

#[test]
fn reachable_states_lists_each_state_once() {
    let reachable = StateMachineQuery::<TrafficLight>::reachable_states(&State::Green);
    assert_eq!(reachable.len(), 3);
    assert!(reachable.contains(&State::Green));
    assert!(reachable.contains(&State::Red));
    assert!(reachable.contains(&State::Yellow));
}

#[test]
fn shortest_path_to_itself_is_the_state_alone() {
    let path = StateMachineQuery::<TrafficLight>::shortest_path(&State::Yellow, &State::Yellow);
    assert_eq!(path, Some(vec![State::Yellow]));
}

#[test]
fn shortest_path_takes_the_direct_edge() {
    // Green reaches Red over Yellow in two steps, and directly on Emergency
    let path = StateMachineQuery::<TrafficLight>::shortest_path(&State::Green, &State::Red);
    assert_eq!(path, Some(vec![State::Green, State::Red]));
}

#[test]
fn reset_keeps_the_callbacks() {
    let mut sm = StateMachineInstance::<TrafficLight>::new();
    sm.on_any_transition(|_from, _input, _to| {});
    sm.transition(Input::Timer).unwrap();
    sm.reset();
    assert_eq!(*sm.current_state(), State::Red);
    assert_eq!(sm.history_len(), 0);
    assert_eq!(sm.callback_count(), 1);
    sm.clear_callbacks();
    assert_eq!(sm.callback_count(), 0);
}

#[test]
fn history_of_size_zero_stays_empty() {
    let mut sm = StateMachineInstance::<TrafficLight>::with_max_history(0);
    assert_eq!(sm.transition(Input::Timer), Ok(State::Green));
    assert_eq!(sm.transition(Input::Timer), Ok(State::Yellow));
    assert_eq!(*sm.current_state(), State::Yellow);
    assert_eq!(sm.history_len(), 0);
    assert!(sm.history_is_empty());
}

#[test]
fn history_keeps_the_last_transitions_in_order() {
    let limit = 3;
    let mut sm = StateMachineInstance::<TrafficLight>::with_max_history(limit);
    let mut log = Vec::new();
    for step in 0..10 {
        let input = if step % 3 == 0 { Input::Emergency } else { Input::Timer };
        log.push((sm.current_state().clone(), input.clone()));
        sm.transition(input).unwrap();
        let kept = log.len().min(limit);
        assert_eq!(sm.history_len(), kept);
        let history: Vec<(State, Input)> = sm.history().iter().cloned().collect();
        assert_eq!(history, log[log.len() - kept..].to_vec());
    }
}

#[test]
fn independent_instances_agree() {
    let mut first = StateMachineInstance::<TrafficLight>::new();
    let mut second = StateMachineInstance::<TrafficLight>::with_max_history(1);
    for input in [Input::Timer, Input::Emergency, Input::Timer, Input::Timer] {
        assert_eq!(first.transition(input.clone()), second.transition(input));
        assert_eq!(first.current_state(), second.current_state());
    }
}
