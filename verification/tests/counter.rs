use yasm::{StateMachine, StateMachineDoc, StateMachineQuery};

#[derive(Debug, Clone, Hash, PartialEq, Eq)]
enum Input {
    Up,
    Hold,
    Wait,
    Idle,
    Jump,
}

/// A counter from 0 to 119 that can stay where it is in three ways below 100.
struct Counter;

impl StateMachine for Counter {
    type State = u8;
    type Input = Input;

    fn states() -> Vec<u8> {
        (0..120).collect()
    }

    fn inputs() -> Vec<Input> {
        vec![Input::Up, Input::Hold, Input::Wait, Input::Idle, Input::Jump]
    }

    fn valid_inputs(state: &u8) -> Vec<Input> {
        if *state == 0 {
            vec![Input::Up, Input::Hold, Input::Wait, Input::Idle, Input::Jump]
        } else if *state < 100 {
            vec![Input::Up, Input::Hold, Input::Wait, Input::Idle]
        } else if *state < 119 {
            vec![Input::Up]
        } else {
            vec![]
        }
    }

    fn next_state(state: &u8, input: &Input) -> Option<u8> {
        match input {
            Input::Up if *state < 119 => Some(*state + 1),
            Input::Hold | Input::Wait | Input::Idle if *state < 100 => Some(*state),
            Input::Jump if *state == 0 => Some(1),
            _ => None,
        }
    }

    fn initial_state() -> u8 {
        0
    }

    fn state_name(state: &u8) -> String {
        format!("S{}", state)
    }

    fn input_name(input: &Input) -> String {
        format!("{:?}", input)
    }
}

#[test]
fn numbers_of_more_than_one_digit() {
    let stats = StateMachineDoc::<Counter>::generate_statistics();
    assert_eq!(
        stats,
        "# State Machine Statistics\n\n\
         - **Number of States**: 120\n\
         - **Number of Input Types**: 5\n\
         - **Number of Transitions**: 120\n\
         - **Number of Self-loops**: 300\n\
         - **Total Transitions**: 420\n\
         - **Initial State**: S0\n"
    );
}

#[test]
fn parallel_arrows_merge_and_many_self_loops_split() {
    let mermaid = StateMachineDoc::<Counter>::generate_mermaid();
    let lines: Vec<&str> = mermaid.lines().collect();
    assert_eq!(lines[0], "stateDiagram-v2");
    assert_eq!(lines[1], "    [*] --> S0");
    // the two inputs from 0 to 1 share one arrow
    assert_eq!(lines[2], "    S0 --> S1 : Up / Jump");
    assert_eq!(lines[3], "    S1 --> S2 : Up");
    // 119 arrows between two states, then the self-loops, one line for each input
    assert_eq!(lines[121], "    S0 --> S0 : Hold");
    assert_eq!(lines[122], "    S0 --> S0 : Wait");
    assert_eq!(lines[123], "    S0 --> S0 : Idle");
    assert_eq!(lines.len(), 2 + 119 + 300);
}

#[test]
fn a_long_chain_is_walked_to_its_end() {
    let path = StateMachineQuery::<Counter>::shortest_path(&0, &119).unwrap();
    assert_eq!(path, (0..120).collect::<Vec<u8>>());
    assert_eq!(StateMachineQuery::<Counter>::reachable_states(&100).len(), 20);
    assert_eq!(StateMachineQuery::<Counter>::terminal_states(), vec![119]);
    assert!(!StateMachineQuery::<Counter>::is_strongly_connected());
}
