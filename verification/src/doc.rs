//! Documentation of a machine as text: a Mermaid state diagram, a table of
//! transitions and a few statistics.
//!
//! An input whose name starts with an underscore is hidden: it takes part in
//! everything the machine does, but the diagram and the table leave it out.
use vstd::prelude::*;
use crate::definition::{copy_of, lawful, same, StateMachine};

verus! {

/// State machine documentation generator.
pub struct StateMachineDoc<SM: StateMachine> {
    _phantom: core::marker::PhantomData<SM>,
}

/// One transition: the state left, the input and the state entered.
pub type Transition<S, I> = (S, I, S);

/// The transitions from `state` on `inputs`, in the order of `inputs`; an
/// input that leads nowhere gives none.
pub open spec fn transitions_on<SM: StateMachine>(
    state: SM::State,
    inputs: Seq<SM::Input>,
) -> Seq<Transition<SM::State, SM::Input>>
    decreases inputs.len(),
{
    if inputs.len() == 0 {
        Seq::empty()
    } else {
        let before = transitions_on::<SM>(state, inputs.drop_last());
        match SM::spec_next_state(state, inputs.last()) {
            Some(next) => before.push((state, inputs.last(), next)),
            None => before,
        }
    }
}

/// The transitions from the states of `states` on the inputs that each
/// accepts, state by state.
pub open spec fn transitions_from<SM: StateMachine>(states: Seq<SM::State>) -> Seq<
    Transition<SM::State, SM::Input>,
>
    decreases states.len(),
{
    if states.len() == 0 {
        Seq::empty()
    } else {
        transitions_from::<SM>(states.drop_last()) + transitions_on::<SM>(
            states.last(),
            SM::spec_valid_inputs(states.last()),
        )
    }
}

/// A name that does not start with an underscore.
pub open spec fn shown_name(name: Seq<char>) -> bool {
    name.len() == 0 || name[0] != '_'
}

/// The transitions of `transitions` whose input is not hidden.
pub open spec fn shown<SM: StateMachine>(
    transitions: Seq<Transition<SM::State, SM::Input>>,
) -> Seq<Transition<SM::State, SM::Input>>
    decreases transitions.len(),
{
    if transitions.len() == 0 {
        Seq::empty()
    } else {
        let before = shown::<SM>(transitions.drop_last());
        if shown_name(SM::spec_input_name(transitions.last().1)) {
            before.push(transitions.last())
        } else {
            before
        }
    }
}

/// The decimal digit `d`.
pub open spec fn digit(d: nat) -> char {
    if d == 0 {
        '0'
    } else if d == 1 {
        '1'
    } else if d == 2 {
        '2'
    } else if d == 3 {
        '3'
    } else if d == 4 {
        '4'
    } else if d == 5 {
        '5'
    } else if d == 6 {
        '6'
    } else if d == 7 {
        '7'
    } else if d == 8 {
        '8'
    } else {
        '9'
    }
}

/// `n` in decimal digits, without leading zeros.
pub open spec fn decimal(n: nat) -> Seq<char>
    decreases n,
{
    if n < 10 {
        seq![digit(n)]
    } else {
        decimal(n / 10).push(digit(n % 10))
    }
}

/// `parts` one after the other, with `separator` between two of them.
pub open spec fn joined(parts: Seq<Seq<char>>, separator: Seq<char>) -> Seq<char>
    decreases parts.len(),
{
    if parts.len() == 0 {
        Seq::empty()
    } else if parts.len() == 1 {
        parts[0]
    } else {
        joined(parts.drop_last(), separator) + separator + parts.last()
    }
}

/// The names of `inputs`.
pub open spec fn input_names<SM: StateMachine>(inputs: Seq<SM::Input>) -> Seq<Seq<char>> {
    inputs.map_values(|input: SM::Input| SM::spec_input_name(input))
}

/// The transitions of `transitions` that stay in their state, counted.
pub open spec fn self_loops<S, I>(transitions: Seq<Transition<S, I>>) -> nat
    decreases transitions.len(),
{
    if transitions.len() == 0 {
        0
    } else {
        self_loops(transitions.drop_last()) + if transitions.last().0 == transitions.last().2 {
            1nat
        } else {
            0nat
        }
    }
}

/// The row of the table for one transition.
pub open spec fn table_row<SM: StateMachine>(t: Transition<SM::State, SM::Input>) -> Seq<char> {
    "| "@ + SM::spec_state_name(t.0) + " | "@ + SM::spec_input_name(t.1) + " | "@
        + SM::spec_state_name(t.2) + " |\n"@
}

/// The rows of the table for `transitions`.
pub open spec fn table_rows<SM: StateMachine>(
    transitions: Seq<Transition<SM::State, SM::Input>>,
) -> Seq<char>
    decreases transitions.len(),
{
    if transitions.len() == 0 {
        Seq::empty()
    } else {
        table_rows::<SM>(transitions.drop_last()) + table_row::<SM>(transitions.last())
    }
}

/// The transition table: a Markdown table with one row for each transition
/// whose input is not hidden.
pub open spec fn transition_table<SM: StateMachine>() -> Seq<char> {
    "# State Transition Table\n\n"@ + "| Current State | Input | Next State |\n"@
        + "|---------------|-------|------------|\n"@ + table_rows::<SM>(
        shown::<SM>(transitions_from::<SM>(SM::spec_states())),
    )
}

/// The statistics: the numbers of states, of inputs, of transitions between
/// two states, of transitions that stay in their state and of both together,
/// and the name of the initial state. Hidden inputs count.
pub open spec fn statistics<SM: StateMachine>() -> Seq<char> {
    let all = transitions_from::<SM>(SM::spec_states());
    "# State Machine Statistics\n\n"@ + "- **Number of States**: "@ + decimal(
        SM::spec_states().len(),
    ) + "\n"@ + "- **Number of Input Types**: "@ + decimal(SM::spec_inputs().len()) + "\n"@
        + "- **Number of Transitions**: "@ + decimal((all.len() - self_loops(all)) as nat) + "\n"@
        + "- **Number of Self-loops**: "@ + decimal(self_loops(all)) + "\n"@
        + "- **Total Transitions**: "@ + decimal(all.len()) + "\n"@ + "- **Initial State**: "@
        + SM::spec_state_name(SM::spec_initial_state()) + "\n"@
}

/// The inputs that lead from one state to another, or from a state to
/// itself: what the diagram draws as one arrow.
pub struct BundleView<S, I> {
    pub from: S,
    pub to: S,
    pub inputs: Seq<I>,
}

/// A bundle as the renderer holds it.
struct Bundle<S, I> {
    from: S,
    to: S,
    inputs: Vec<I>,
}

impl<S, I> View for Bundle<S, I> {
    type V = BundleView<S, I>;

    closed spec fn view(&self) -> Self::V {
        BundleView { from: self.from, to: self.to, inputs: self.inputs@ }
    }
}

/// The views of `bundles`.
spec fn bundle_views<S, I>(bundles: Seq<Bundle<S, I>>) -> Seq<BundleView<S, I>> {
    bundles.map_values(|b: Bundle<S, I>| b@)
}

/// The first position in `bundles` of a bundle from `from` to `to`, or the
/// length of `bundles` if there is none.
pub open spec fn slot_of<S, I>(bundles: Seq<BundleView<S, I>>, from: S, to: S) -> int
    decreases bundles.len(),
{
    if bundles.len() == 0 {
        0
    } else {
        let before = slot_of(bundles.drop_last(), from, to);
        if before < bundles.len() - 1 {
            before
        } else if bundles.last().from == from && bundles.last().to == to {
            bundles.len() - 1
        } else {
            bundles.len() as int
        }
    }
}

/// `bundles` with the transition `t` added: to the bundle between its two
/// states, or as a new bundle behind the others.
pub open spec fn bundle_add<S, I>(bundles: Seq<BundleView<S, I>>, t: Transition<S, I>) -> Seq<
    BundleView<S, I>,
> {
    let at = slot_of(bundles, t.0, t.2);
    if at < bundles.len() {
        bundles.update(
            at,
            BundleView {
                from: bundles[at].from,
                to: bundles[at].to,
                inputs: bundles[at].inputs.push(t.1),
            },
        )
    } else {
        bundles.push(BundleView { from: t.0, to: t.2, inputs: seq![t.1] })
    }
}

/// `transitions` in bundles: one for each pair of states, in the order in
/// which the pairs first occur, each with the inputs of its transitions in
/// their order.
pub open spec fn bundled<S, I>(transitions: Seq<Transition<S, I>>) -> Seq<BundleView<S, I>>
    decreases transitions.len(),
{
    if transitions.len() == 0 {
        Seq::empty()
    } else {
        bundle_add(bundled(transitions.drop_last()), transitions.last())
    }
}

/// The label of an arrow: the names of `inputs`, with ` / ` between them.
pub open spec fn label<SM: StateMachine>(inputs: Seq<SM::Input>) -> Seq<char> {
    joined(input_names::<SM>(inputs), " / "@)
}

/// The line of the diagram for an arrow from `from` to `to` under `label`.
pub open spec fn arrow<SM: StateMachine>(from: SM::State, to: SM::State, label: Seq<char>) -> Seq<
    char,
> {
    "    "@ + SM::spec_state_name(from) + " --> "@ + SM::spec_state_name(to) + " : "@ + label
        + "\n"@
}

/// One line for each of `inputs`, as an arrow of its own from `from` to `to`.
pub open spec fn arrow_each<SM: StateMachine>(
    from: SM::State,
    to: SM::State,
    inputs: Seq<SM::Input>,
) -> Seq<char>
    decreases inputs.len(),
{
    if inputs.len() == 0 {
        Seq::empty()
    } else {
        arrow_each::<SM>(from, to, inputs.drop_last()) + arrow::<SM>(
            from,
            to,
            SM::spec_input_name(inputs.last()),
        )
    }
}

/// The lines of the diagram for one bundle: one arrow under all its inputs;
/// but from a state to itself, with more than two inputs, one arrow for each.
pub open spec fn bundle_text<SM: StateMachine>(b: BundleView<SM::State, SM::Input>) -> Seq<char> {
    if b.from != b.to || b.inputs.len() <= 2 {
        arrow::<SM>(b.from, b.to, label::<SM>(b.inputs))
    } else {
        arrow_each::<SM>(b.from, b.to, b.inputs)
    }
}

/// The lines of the diagram for those of `bundles` that stay in their state
/// (`loops`) or that do not.
pub open spec fn bundles_text<SM: StateMachine>(
    bundles: Seq<BundleView<SM::State, SM::Input>>,
    loops: bool,
) -> Seq<char>
    decreases bundles.len(),
{
    if bundles.len() == 0 {
        Seq::empty()
    } else {
        bundles_text::<SM>(bundles.drop_last(), loops) + if (bundles.last().from
            == bundles.last().to) == loops {
            bundle_text::<SM>(bundles.last())
        } else {
            Seq::empty()
        }
    }
}

/// The Mermaid state diagram: the header, the arrow into the initial state,
/// the arrows between two states, and the arrows from a state to itself.
/// Transitions on hidden inputs are left out.
pub open spec fn mermaid<SM: StateMachine>() -> Seq<char> {
    let bundles = bundled(shown::<SM>(transitions_from::<SM>(SM::spec_states())));
    "stateDiagram-v2\n"@ + "    [*] --> "@ + SM::spec_state_name(SM::spec_initial_state()) + "\n"@
        + bundles_text::<SM>(bundles, false) + bundles_text::<SM>(bundles, true)
}

/// The complete documentation: a title, the statistics, the transition table
/// and the diagram in a code block.
pub open spec fn full_documentation<SM: StateMachine>() -> Seq<char> {
    "# State Machine Documentation\n\n"@ + statistics::<SM>() + "\n"@ + transition_table::<SM>()
        + "\n"@ + "# State Diagram\n\n"@ + "```mermaid\n"@ + mermaid::<SM>() + "```\n"@
}

/// A bundle that is found in the front of a sequence is found there in the
/// whole sequence.
proof fn lemma_slot_of_front<S, I>(
    bundles: Seq<BundleView<S, I>>,
    n: int,
    from: S,
    to: S,
)
    requires
        0 <= n <= bundles.len(),
    ensures
        0 <= slot_of(bundles.take(n), from, to) <= n,
        slot_of(bundles.take(n), from, to) < n ==> slot_of(bundles, from, to) == slot_of(
            bundles.take(n),
            from,
            to,
        ),
        slot_of(bundles.take(n), from, to) == n ==> slot_of(bundles, from, to) >= n,
        slot_of(bundles, from, to) <= bundles.len(),
    decreases bundles.len() - n,
{
    lemma_slot_of_bounds(bundles.take(n), from, to);
    lemma_slot_of_bounds(bundles, from, to);
    if n < bundles.len() {
        lemma_slot_of_front(bundles, n + 1, from, to);
        assert(bundles.take(n + 1).drop_last() =~= bundles.take(n));
    } else {
        assert(bundles.take(n) =~= bundles);
    }
}

/// `slot_of` is a position in the sequence, or its length; a position that
/// it gives holds a bundle between the two states, and no earlier one does.
proof fn lemma_slot_of_bounds<S, I>(bundles: Seq<BundleView<S, I>>, from: S, to: S)
    ensures
        0 <= slot_of(bundles, from, to) <= bundles.len(),
        slot_of(bundles, from, to) < bundles.len() ==> {
            let at = slot_of(bundles, from, to);
            bundles[at].from == from && bundles[at].to == to
        },
    decreases bundles.len(),
{
    if bundles.len() > 0 {
        lemma_slot_of_bounds(bundles.drop_last(), from, to);
    }
}

/// Appends `n` in decimal digits to `text`.
fn push_decimal(text: &mut String, n: usize)
    ensures
        final(text)@ == old(text)@ + decimal(n as nat),
    decreases n,
{
    if n >= 10 {
        push_decimal(text, n / 10);
    }
    let d = n % 10;
    if d == 0 {
        text.append("0");
        proof {
            reveal_strlit("0");
        }
    } else if d == 1 {
        text.append("1");
        proof {
            reveal_strlit("1");
        }
    } else if d == 2 {
        text.append("2");
        proof {
            reveal_strlit("2");
        }
    } else if d == 3 {
        text.append("3");
        proof {
            reveal_strlit("3");
        }
    } else if d == 4 {
        text.append("4");
        proof {
            reveal_strlit("4");
        }
    } else if d == 5 {
        text.append("5");
        proof {
            reveal_strlit("5");
        }
    } else if d == 6 {
        text.append("6");
        proof {
            reveal_strlit("6");
        }
    } else if d == 7 {
        text.append("7");
        proof {
            reveal_strlit("7");
        }
    } else if d == 8 {
        text.append("8");
        proof {
            reveal_strlit("8");
        }
    } else {
        text.append("9");
        proof {
            reveal_strlit("9");
        }
    }
}

impl<SM: StateMachine> StateMachineDoc<SM> {
    /// Check if an input should be included in documentation: whether its
    /// name does not start with an underscore.
    pub fn should_include_input(input: &SM::Input) -> (r: bool)
        requires
            lawful::<SM>(),
        ensures
            r == shown_name(SM::spec_input_name(*input)),
    {
        let name = SM::input_name(input);
        let text = name.as_str();
        text.is_empty() || text.get_char(0) != '_'
    }

    /// The transitions of the machine: for each listed state, in the order of
    /// the list, the transitions on the inputs that it accepts, in their
    /// order.
    pub fn transitions() -> (r: Vec<Transition<SM::State, SM::Input>>)
        requires
            lawful::<SM>(),
        ensures
            r@ == transitions_from::<SM>(SM::spec_states()),
    {
        let states = SM::states();
        let mut found: Vec<Transition<SM::State, SM::Input>> = Vec::new();
        let mut i: usize = 0;
        while i < states.len()
            invariant
                lawful::<SM>(),
                i <= states.len(),
                states@ == SM::spec_states(),
                found@ == transitions_from::<SM>(states@.take(i as int)),
            decreases states.len() - i,
        {
            let inputs = SM::valid_inputs(&states[i]);
            let ghost before = found@;
            let mut j: usize = 0;
            while j < inputs.len()
                invariant
                    lawful::<SM>(),
                    i < states.len(),
                    j <= inputs.len(),
                    inputs@ == SM::spec_valid_inputs(states@[i as int]),
                    found@ == before + transitions_on::<SM>(
                        states@[i as int],
                        inputs@.take(j as int),
                    ),
                decreases inputs.len() - j,
            {
                proof {
                    assert(inputs@.take(j + 1).drop_last() =~= inputs@.take(j as int));
                }
                match SM::next_state(&states[i], &inputs[j]) {
                    Some(next_state) => {
                        found.push((copy_of(&states[i]), copy_of(&inputs[j]), next_state));
                        proof {
                            assert(found@ =~= before + transitions_on::<SM>(
                                states@[i as int],
                                inputs@.take(j + 1),
                            ));
                        }
                    },
                    None => {},
                }
                j += 1;
            }
            proof {
                assert(inputs@.take(inputs@.len() as int) =~= inputs@);
                assert(states@.take(i + 1).drop_last() =~= states@.take(i as int));
            }
            i += 1;
        }
        proof {
            assert(states@.take(states@.len() as int) =~= states@);
        }
        found
    }

    /// Generate state transition table.
    ///
    /// A Markdown table that lists the transitions of the machine, but for
    /// those on hidden inputs.
    pub fn generate_transition_table() -> (r: String)
        requires
            lawful::<SM>(),
        ensures
            r@ == transition_table::<SM>(),
    {
        let all = Self::transitions();
        let mut table = String::from_str("# State Transition Table\n\n");
        table.append("| Current State | Input | Next State |\n");
        table.append("|---------------|-------|------------|\n");
        let ghost head = table@;
        let mut k: usize = 0;
        while k < all.len()
            invariant
                lawful::<SM>(),
                k <= all.len(),
                table@ == head + table_rows::<SM>(shown::<SM>(all@.take(k as int))),
            decreases all.len() - k,
        {
            let ghost rows = shown::<SM>(all@.take(k as int));
            proof {
                assert(all@.take(k + 1).drop_last() =~= all@.take(k as int));
            }
            if Self::should_include_input(&all[k].1) {
                table.append("| ");
                table.append(SM::state_name(&all[k].0).as_str());
                table.append(" | ");
                table.append(SM::input_name(&all[k].1).as_str());
                table.append(" | ");
                table.append(SM::state_name(&all[k].2).as_str());
                table.append(" |\n");
                proof {
                    assert(rows.push(all@[k as int]).drop_last() =~= rows);
                }
            }
            k += 1;
        }
        proof {
            assert(all@.take(all@.len() as int) =~= all@);
        }
        table
    }

    /// Generate state machine statistics.
    pub fn generate_statistics() -> (r: String)
        requires
            lawful::<SM>(),
        ensures
            r@ == statistics::<SM>(),
    {
        let states = SM::states();
        let inputs = SM::inputs();
        let all = Self::transitions();
        let mut self_loop_count: usize = 0;
        let mut k: usize = 0;
        while k < all.len()
            invariant
                lawful::<SM>(),
                k <= all.len(),
                self_loop_count <= k,
                self_loop_count == self_loops(all@.take(k as int)),
            decreases all.len() - k,
        {
            proof {
                assert(all@.take(k + 1).drop_last() =~= all@.take(k as int));
            }
            if same(&all[k].0, &all[k].2) {
                self_loop_count += 1;
            }
            k += 1;
        }
        proof {
            assert(all@.take(all@.len() as int) =~= all@);
        }
        let transition_count = all.len() - self_loop_count;
        let mut text = String::from_str("# State Machine Statistics\n\n");
        text.append("- **Number of States**: ");
        push_decimal(&mut text, states.len());
        text.append("\n");
        text.append("- **Number of Input Types**: ");
        push_decimal(&mut text, inputs.len());
        text.append("\n");
        text.append("- **Number of Transitions**: ");
        push_decimal(&mut text, transition_count);
        text.append("\n");
        text.append("- **Number of Self-loops**: ");
        push_decimal(&mut text, self_loop_count);
        text.append("\n");
        text.append("- **Total Transitions**: ");
        push_decimal(&mut text, all.len());
        text.append("\n");
        text.append("- **Initial State**: ");
        text.append(SM::state_name(&SM::initial_state()).as_str());
        text.append("\n");
        text
    }

    /// The position of the bundle from `from` to `to`, or the number of
    /// bundles if there is none.
    fn find_bundle(
        bundles: &Vec<Bundle<SM::State, SM::Input>>,
        from: &SM::State,
        to: &SM::State,
    ) -> (at: usize)
        requires
            lawful::<SM>(),
        ensures
            at == slot_of(bundle_views(bundles@), *from, *to),
            at <= bundles.len(),
    {
        let ghost views = bundle_views(bundles@);
        let mut i: usize = 0;
        while i < bundles.len()
            invariant
                lawful::<SM>(),
                i <= bundles.len(),
                views == bundle_views(bundles@),
                slot_of(views.take(i as int), *from, *to) == i,
            decreases bundles.len() - i,
        {
            proof {
                assert(views.take(i + 1).drop_last() =~= views.take(i as int));
                lemma_slot_of_front(views, i + 1, *from, *to);
            }
            if same(&bundles[i].from, from) && same(&bundles[i].to, to) {
                return i;
            }
            i += 1;
        }
        proof {
            assert(views.take(views.len() as int) =~= views);
        }
        i
    }

    /// The transitions of `transitions` whose input is not hidden, in
    /// bundles.
    fn bundle(transitions: &Vec<Transition<SM::State, SM::Input>>) -> (bundles: Vec<
        Bundle<SM::State, SM::Input>,
    >)
        requires
            lawful::<SM>(),
        ensures
            bundle_views(bundles@) == bundled(shown::<SM>(transitions@)),
    {
        let mut bundles: Vec<Bundle<SM::State, SM::Input>> = Vec::new();
        let mut k: usize = 0;
        while k < transitions.len()
            invariant
                lawful::<SM>(),
                k <= transitions.len(),
                bundle_views(bundles@) == bundled(shown::<SM>(transitions@.take(k as int))),
            decreases transitions.len() - k,
        {
            let ghost kept = shown::<SM>(transitions@.take(k as int));
            proof {
                assert(transitions@.take(k + 1).drop_last() =~= transitions@.take(k as int));
            }
            if Self::should_include_input(&transitions[k].1) {
                let at = Self::find_bundle(&bundles, &transitions[k].0, &transitions[k].2);
                if at < bundles.len() {
                    bundles[at].inputs.push(copy_of(&transitions[k].1));
                } else {
                    let mut inputs: Vec<SM::Input> = Vec::new();
                    inputs.push(copy_of(&transitions[k].1));
                    bundles.push(
                        Bundle {
                            from: copy_of(&transitions[k].0),
                            to: copy_of(&transitions[k].2),
                            inputs,
                        },
                    );
                }
                proof {
                    assert(kept.push(transitions@[k as int]).drop_last() =~= kept);
                }
            }
            k += 1;
        }
        proof {
            assert(transitions@.take(transitions@.len() as int) =~= transitions@);
        }
        bundles
    }

    /// Appends the label of an arrow for `inputs`.
    fn push_label(text: &mut String, inputs: &Vec<SM::Input>)
        requires
            lawful::<SM>(),
        ensures
            final(text)@ == old(text)@ + label::<SM>(inputs@),
    {
        let mut k: usize = 0;
        while k < inputs.len()
            invariant
                lawful::<SM>(),
                k <= inputs.len(),
                text@ == old(text)@ + label::<SM>(inputs@.take(k as int)),
            decreases inputs.len() - k,
        {
            let ghost names = input_names::<SM>(inputs@.take(k as int));
            proof {
                assert(input_names::<SM>(inputs@.take(k + 1)).drop_last() =~= names);
                assert(input_names::<SM>(inputs@.take(k + 1)).last() == SM::spec_input_name(
                    inputs@[k as int],
                ));
            }
            if k > 0 {
                text.append(" / ");
            }
            text.append(SM::input_name(&inputs[k]).as_str());
            proof {
                if k == 0 {
                    assert(input_names::<SM>(inputs@.take(k + 1))[0] == SM::spec_input_name(
                        inputs@[k as int],
                    ));
                }
            }
            k += 1;
        }
        proof {
            assert(inputs@.take(inputs@.len() as int) =~= inputs@);
        }
    }

    /// Appends the start of an arrow from `from` to `to`, up to its label.
    fn push_arrow_start(text: &mut String, from: &SM::State, to: &SM::State)
        requires
            lawful::<SM>(),
        ensures
            final(text)@ == old(text)@ + "    "@ + SM::spec_state_name(*from) + " --> "@
                + SM::spec_state_name(*to) + " : "@,
    {
        text.append("    ");
        text.append(SM::state_name(from).as_str());
        text.append(" --> ");
        text.append(SM::state_name(to).as_str());
        text.append(" : ");
    }

    /// Appends the lines of the diagram for one bundle.
    fn push_bundle(text: &mut String, b: &Bundle<SM::State, SM::Input>)
        requires
            lawful::<SM>(),
        ensures
            final(text)@ == old(text)@ + bundle_text::<SM>(b@),
    {
        if !same(&b.from, &b.to) || b.inputs.len() <= 2 {
            // One arrow under all the inputs
            Self::push_arrow_start(text, &b.from, &b.to);
            Self::push_label(text, &b.inputs);
            text.append("\n");
        } else {
            // Display many inputs separately to avoid cluttered diagrams
            let mut k: usize = 0;
            while k < b.inputs.len()
                invariant
                    lawful::<SM>(),
                    k <= b.inputs.len(),
                    text@ == old(text)@ + arrow_each::<SM>(b.from, b.to, b.inputs@.take(k as int)),
                decreases b.inputs.len() - k,
            {
                let ghost before = text@;
                proof {
                    assert(b.inputs@.take(k + 1).drop_last() =~= b.inputs@.take(k as int));
                }
                Self::push_arrow_start(text, &b.from, &b.to);
                text.append(SM::input_name(&b.inputs[k]).as_str());
                text.append("\n");
                proof {
                    assert(text@ =~= before + arrow::<SM>(
                        b.from,
                        b.to,
                        SM::spec_input_name(b.inputs@[k as int]),
                    ));
                    assert(text@ =~= old(text)@ + arrow_each::<SM>(
                        b.from,
                        b.to,
                        b.inputs@.take(k + 1),
                    ));
                }
                k += 1;
            }
            proof {
                assert(b.inputs@.take(b.inputs@.len() as int) =~= b.inputs@);
            }
        }
    }

    /// Appends the lines of the diagram for those of `bundles` that stay in
    /// their state (`loops`) or that do not.
    fn push_bundles(text: &mut String, bundles: &Vec<Bundle<SM::State, SM::Input>>, loops: bool)
        requires
            lawful::<SM>(),
        ensures
            final(text)@ == old(text)@ + bundles_text::<SM>(bundle_views(bundles@), loops),
    {
        let ghost views = bundle_views(bundles@);
        let mut k: usize = 0;
        while k < bundles.len()
            invariant
                lawful::<SM>(),
                k <= bundles.len(),
                views == bundle_views(bundles@),
                text@ == old(text)@ + bundles_text::<SM>(views.take(k as int), loops),
            decreases bundles.len() - k,
        {
            proof {
                assert(views.take(k + 1).drop_last() =~= views.take(k as int));
            }
            if same(&bundles[k].from, &bundles[k].to) == loops {
                Self::push_bundle(text, &bundles[k]);
            }
            k += 1;
        }
        proof {
            assert(views.take(views.len() as int) =~= views);
        }
    }

    /// Generate Mermaid state diagram.
    ///
    /// The transitions between the same two states are drawn as one arrow
    /// under the names of their inputs. The arrows between two states come
    /// first, then those from a state to itself; of these, one with more than
    /// two inputs is drawn as one arrow for each input. Transitions on hidden
    /// inputs are left out.
    pub fn generate_mermaid() -> (r: String)
        requires
            lawful::<SM>(),
        ensures
            r@ == mermaid::<SM>(),
    {
        let mut diagram = String::from_str("stateDiagram-v2\n");
        // Add initial state marker
        let initial = SM::initial_state();
        diagram.append("    [*] --> ");
        diagram.append(SM::state_name(&initial).as_str());
        diagram.append("\n");
        // Collect the transitions between the same two states
        let all = Self::transitions();
        let bundles = Self::bundle(&all);
        // Add normal transitions, then self-loops
        Self::push_bundles(&mut diagram, &bundles, false);
        Self::push_bundles(&mut diagram, &bundles, true);
        diagram
    }

    /// Generate complete documentation: statistics, transition table and
    /// Mermaid diagram.
    pub fn generate_full_documentation() -> (r: String)
        requires
            lawful::<SM>(),
        ensures
            r@ == full_documentation::<SM>(),
    {
        let mut doc = String::new();
        // Add title
        doc.append("# State Machine Documentation\n\n");
        // Add statistics
        doc.append(Self::generate_statistics().as_str());
        doc.append("\n");
        // Add transition table
        doc.append(Self::generate_transition_table().as_str());
        doc.append("\n");
        // Add Mermaid diagram
        doc.append("# State Diagram\n\n");
        doc.append("```mermaid\n");
        doc.append(Self::generate_mermaid().as_str());
        doc.append("```\n");
        doc
    }
}

} // verus!
