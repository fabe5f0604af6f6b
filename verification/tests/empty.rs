use yasm::{StateMachine, StateMachineDoc, StateMachineQuery};

/// A machine without states and inputs.
struct Nothing;

impl StateMachine for Nothing {
    type State = u8;
    type Input = u8;

    fn states() -> Vec<u8> {
        Vec::new()
    }

    fn inputs() -> Vec<u8> {
        Vec::new()
    }

    fn valid_inputs(_state: &u8) -> Vec<u8> {
        Vec::new()
    }

    fn next_state(_state: &u8, _input: &u8) -> Option<u8> {
        None
    }

    fn initial_state() -> u8 {
        0
    }

    fn state_name(state: &u8) -> String {
        state.to_string()
    }

    fn input_name(input: &u8) -> String {
        input.to_string()
    }
}

#[test]
fn a_machine_without_states_is_strongly_connected() {
    assert!(StateMachineQuery::<Nothing>::is_strongly_connected());
    assert!(StateMachineQuery::<Nothing>::terminal_states().is_empty());
    assert!(StateMachineQuery::<Nothing>::states_leading_to(&0).is_empty());
}

#[test]
fn a_state_without_edges_reaches_itself_alone() {
    assert_eq!(StateMachineQuery::<Nothing>::reachable_states(&7), vec![7]);
    assert!(StateMachineQuery::<Nothing>::has_path(&7, &7));
    assert!(!StateMachineQuery::<Nothing>::has_path(&7, &8));
    assert_eq!(StateMachineQuery::<Nothing>::shortest_path(&7, &7), Some(vec![7]));
    assert_eq!(StateMachineQuery::<Nothing>::shortest_path(&7, &8), None);
}

#[test]
fn documentation_of_a_machine_without_transitions() {
    assert!(StateMachineDoc::<Nothing>::transitions().is_empty());
    assert_eq!(
        StateMachineDoc::<Nothing>::generate_mermaid(),
        "stateDiagram-v2\n    [*] --> 0\n"
    );
    assert_eq!(
        StateMachineDoc::<Nothing>::generate_transition_table(),
        "# State Transition Table\n\n\
         | Current State | Input | Next State |\n\
         |---------------|-------|------------|\n"
    );
    assert_eq!(
        StateMachineDoc::<Nothing>::generate_statistics(),
        "# State Machine Statistics\n\n\
         - **Number of States**: 0\n\
         - **Number of Input Types**: 0\n\
         - **Number of Transitions**: 0\n\
         - **Number of Self-loops**: 0\n\
         - **Total Transitions**: 0\n\
         - **Initial State**: 0\n"
    );
}
