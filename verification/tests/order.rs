use yasm::{StateMachine, StateMachineDoc, StateMachineQuery};

#[derive(Debug, Clone, Hash, PartialEq, Eq)]
enum State {
    Created,
    Paid,
    Shipped,
    Delivered,
    Cancelled,
}

#[derive(Debug, Clone, Hash, PartialEq, Eq)]
enum Input {
    Pay,
    Ship,
    Deliver,
    Cancel,
    Refund,
}

struct Order;

impl StateMachine for Order {
    type State = State;
    type Input = Input;

    fn states() -> Vec<State> {
        vec![State::Created, State::Paid, State::Shipped, State::Delivered, State::Cancelled]
    }

    fn inputs() -> Vec<Input> {
        vec![Input::Pay, Input::Ship, Input::Deliver, Input::Cancel, Input::Refund]
    }

    fn valid_inputs(state: &State) -> Vec<Input> {
        match state {
            State::Created => vec![Input::Pay, Input::Cancel],
            State::Paid => vec![Input::Ship, Input::Refund],
            State::Shipped => vec![Input::Deliver, Input::Cancel],
            State::Delivered | State::Cancelled => vec![],
        }
    }

    fn next_state(state: &State, input: &Input) -> Option<State> {
        match (state, input) {
            (State::Created, Input::Pay) => Some(State::Paid),
            (State::Created, Input::Cancel) => Some(State::Cancelled),
            (State::Paid, Input::Ship) => Some(State::Shipped),
            (State::Paid, Input::Refund) => Some(State::Cancelled),
            (State::Shipped, Input::Deliver) => Some(State::Delivered),
            (State::Shipped, Input::Cancel) => Some(State::Cancelled),
            _ => None,
        }
    }

    fn initial_state() -> State {
        State::Created
    }

    fn state_name(state: &State) -> String {
        format!("{:?}", state)
    }

    fn input_name(input: &Input) -> String {
        format!("{:?}", input)
    }
}

#[test]
fn shortest_path_of_an_order() {
    let path = StateMachineQuery::<Order>::shortest_path(&State::Created, &State::Delivered);
    assert_eq!(
        path,
        Some(vec![State::Created, State::Paid, State::Shipped, State::Delivered])
    );
    assert_eq!(path.unwrap().len() - 1, 3);
}

#[test]
fn no_path_back_from_a_terminal_state() {
    assert_eq!(StateMachineQuery::<Order>::shortest_path(&State::Delivered, &State::Created), None);
    assert!(!StateMachineQuery::<Order>::has_path(&State::Cancelled, &State::Paid));
    assert_eq!(
        StateMachineQuery::<Order>::reachable_states(&State::Delivered),
        vec![State::Delivered]
    );
}

#[test]
fn terminal_states_of_an_order() {
    assert_eq!(
        StateMachineQuery::<Order>::terminal_states(),
        vec![State::Delivered, State::Cancelled]
    );
    assert!(!StateMachineQuery::<Order>::is_strongly_connected());
}

#[test]
fn states_leading_to_cancelled_are_listed_once() {
    assert_eq!(
        StateMachineQuery::<Order>::states_leading_to(&State::Cancelled),
        vec![State::Created, State::Paid, State::Shipped]
    );
    assert_eq!(StateMachineQuery::<Order>::states_leading_to(&State::Created), vec![]);
}

#[test]
fn reachable_states_hold_what_a_chain_of_transitions_leads_to() {
    let reachable = StateMachineQuery::<Order>::reachable_states(&State::Paid);
    assert_eq!(reachable.len(), 4);
    for state in [State::Paid, State::Shipped, State::Delivered, State::Cancelled] {
        assert!(reachable.contains(&state));
        assert!(StateMachineQuery::<Order>::has_path(&State::Paid, &state));
    }
    assert!(!reachable.contains(&State::Created));
}

#[test]
fn order_transitions_in_the_order_of_the_description() {
    assert_eq!(
        StateMachineDoc::<Order>::transitions(),
        vec![
            (State::Created, Input::Pay, State::Paid),
            (State::Created, Input::Cancel, State::Cancelled),
            (State::Paid, Input::Ship, State::Shipped),
            (State::Paid, Input::Refund, State::Cancelled),
            (State::Shipped, Input::Deliver, State::Delivered),
            (State::Shipped, Input::Cancel, State::Cancelled),
        ]
    );
}
