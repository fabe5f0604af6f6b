//! The transition graph of a machine: its edges, its walks, and which state
//! can be reached from which.
use vstd::prelude::*;
use crate::definition::StateMachine;

verus! {

/// `a` accepts `input`, and `input` leads from `a` to `b`.
pub open spec fn leads<SM: StateMachine>(a: SM::State, input: SM::Input, b: SM::State) -> bool {
    SM::spec_valid_inputs(a).contains(input) && SM::spec_next_state(a, input) == Some(b)
}

/// One transition leads from `a` to `b`.
pub open spec fn edge<SM: StateMachine>(a: SM::State, b: SM::State) -> bool {
    exists|input: SM::Input| leads::<SM>(a, input, b)
}

/// `walk` is a state followed by the states that a chain of transitions
/// passes through. A single state is a walk without transitions.
pub open spec fn is_walk<SM: StateMachine>(walk: Seq<SM::State>) -> bool {
    &&& walk.len() > 0
    &&& forall|k: int| 0 <= k < walk.len() - 1 ==> edge::<SM>(#[trigger] walk[k], walk[k + 1])
}

/// `walk` is a walk that starts in `from` and ends in `to`.
pub open spec fn walk_between<SM: StateMachine>(
    walk: Seq<SM::State>,
    from: SM::State,
    to: SM::State,
) -> bool {
    is_walk::<SM>(walk) && walk.first() == from && walk.last() == to
}

/// A chain of transitions, possibly empty, leads from `from` to `to`.
pub open spec fn reachable<SM: StateMachine>(from: SM::State, to: SM::State) -> bool {
    exists|walk: Seq<SM::State>| walk_between::<SM>(walk, from, to)
}

/// A chain of at most `n` transitions leads from `from` to `to`.
pub open spec fn reachable_within<SM: StateMachine>(
    from: SM::State,
    to: SM::State,
    n: nat,
) -> bool {
    exists|walk: Seq<SM::State>| walk_between::<SM>(walk, from, to) && walk.len() - 1 <= n
}

/// The least number of transitions that lead from `from` to `to`, where `to`
/// can be reached from `from`.
pub open spec fn distance<SM: StateMachine>(from: SM::State, to: SM::State) -> nat {
    choose|n: nat|
        reachable_within::<SM>(from, to, n) && forall|m: nat|
            m < n ==> !reachable_within::<SM>(from, to, m)
}

/// The state that the inputs of `inputs`, taken one after the other, lead to
/// from `from`; `None` if one of them is not accepted where it is taken, or
/// leads nowhere.
pub open spec fn run<SM: StateMachine>(from: SM::State, inputs: Seq<SM::Input>) -> Option<SM::State>
    decreases inputs.len(),
{
    if inputs.len() == 0 {
        Some(from)
    } else {
        match run::<SM>(from, inputs.drop_last()) {
            Some(state) => if SM::spec_valid_inputs(state).contains(inputs.last()) {
                SM::spec_next_state(state, inputs.last())
            } else {
                None
            },
            None => None,
        }
    }
}

/// A walk stays a walk when a state is appended that its last state has an
/// edge to.
pub proof fn lemma_walk_extend<SM: StateMachine>(walk: Seq<SM::State>, next: SM::State)
    requires
        is_walk::<SM>(walk),
        edge::<SM>(walk.last(), next),
    ensures
        is_walk::<SM>(walk.push(next)),
        walk.push(next).first() == walk.first(),
        walk.push(next).last() == next,
{
    let longer = walk.push(next);
    assert forall|k: int| 0 <= k < longer.len() - 1 implies edge::<SM>(
        #[trigger] longer[k],
        longer[k + 1],
    ) by {
        if k < walk.len() - 1 {
            assert(edge::<SM>(walk[k], walk[k + 1]));
        }
    }
}

/// The start of a walk is a walk.
pub proof fn lemma_walk_prefix<SM: StateMachine>(walk: Seq<SM::State>, n: int)
    requires
        is_walk::<SM>(walk),
        0 < n <= walk.len(),
    ensures
        is_walk::<SM>(walk.take(n)),
        walk.take(n).first() == walk.first(),
        walk.take(n).last() == walk[n - 1],
{
    let start = walk.take(n);
    assert forall|k: int| 0 <= k < start.len() - 1 implies edge::<SM>(
        #[trigger] start[k],
        start[k + 1],
    ) by {
        assert(edge::<SM>(walk[k], walk[k + 1]));
    }
}

/// Two walks, the second starting where the first ends, join to one walk.
pub proof fn lemma_walk_join<SM: StateMachine>(first: Seq<SM::State>, second: Seq<SM::State>)
    requires
        is_walk::<SM>(first),
        is_walk::<SM>(second),
        first.last() == second.first(),
    ensures
        is_walk::<SM>(first + second.drop_first()),
        (first + second.drop_first()).first() == first.first(),
        (first + second.drop_first()).last() == second.last(),
        (first + second.drop_first()).len() == first.len() + second.len() - 1,
{
    let joined = first + second.drop_first();
    assert forall|k: int| 0 <= k < joined.len() - 1 implies edge::<SM>(
        #[trigger] joined[k],
        joined[k + 1],
    ) by {
        if k < first.len() - 1 {
            assert(edge::<SM>(first[k], first[k + 1]));
        } else {
            let j = k - (first.len() - 1);
            assert(edge::<SM>(second[j], second[j + 1]));
            assert(joined[k + 1] == second[j + 1]);
            if j == 0 {
                assert(joined[k] == first.last());
            } else {
                assert(joined[k] == second[j]);
            }
        }
    }
}

/// Every state can be reached from itself.
pub proof fn lemma_reachable_self<SM: StateMachine>(state: SM::State)
    ensures
        reachable::<SM>(state, state),
        reachable_within::<SM>(state, state, 0),
{
    let walk = seq![state];
    assert(walk_between::<SM>(walk, state, state));
}

/// What can be reached stays reachable over one more edge.
pub proof fn lemma_reachable_step<SM: StateMachine>(from: SM::State, mid: SM::State, to: SM::State)
    requires
        reachable::<SM>(from, mid),
        edge::<SM>(mid, to),
    ensures
        reachable::<SM>(from, to),
{
    let walk = choose|walk: Seq<SM::State>| walk_between::<SM>(walk, from, mid);
    lemma_walk_extend::<SM>(walk, to);
    assert(walk_between::<SM>(walk.push(to), from, to));
}

/// Reachability is transitive.
pub proof fn lemma_reachable_transitive<SM: StateMachine>(
    from: SM::State,
    mid: SM::State,
    to: SM::State,
)
    requires
        reachable::<SM>(from, mid),
        reachable::<SM>(mid, to),
    ensures
        reachable::<SM>(from, to),
{
    let first = choose|walk: Seq<SM::State>| walk_between::<SM>(walk, from, mid);
    let second = choose|walk: Seq<SM::State>| walk_between::<SM>(walk, mid, to);
    lemma_walk_join::<SM>(first, second);
    assert(walk_between::<SM>(first + second.drop_first(), from, to));
}

/// A walk that starts inside a set of states that no edge leaves stays inside
/// it.
proof fn lemma_walk_stays_inside<SM: StateMachine>(
    states: Seq<SM::State>,
    walk: Seq<SM::State>,
    k: int,
)
    requires
        is_walk::<SM>(walk),
        states.contains(walk.first()),
        forall|i: int, next: SM::State|
            0 <= i < states.len() && #[trigger] edge::<SM>(states[i], next) ==> states.contains(
                next,
            ),
        0 <= k < walk.len(),
    ensures
        states.contains(walk[k]),
    decreases k,
{
    if k > 0 {
        lemma_walk_stays_inside::<SM>(states, walk, k - 1);
        let i = choose|i: int| 0 <= i < states.len() && states[i] == walk[k - 1];
        assert(edge::<SM>(walk[k - 1], walk[k - 1 + 1]));
        assert(edge::<SM>(states[i], walk[k]));
    }
}

/// A set of states that holds `from` and that no edge leaves holds every
/// state that can be reached from `from`.
pub proof fn lemma_closed_holds_reachable<SM: StateMachine>(
    states: Seq<SM::State>,
    from: SM::State,
    to: SM::State,
)
    requires
        states.contains(from),
        forall|i: int, next: SM::State|
            0 <= i < states.len() && #[trigger] edge::<SM>(states[i], next) ==> states.contains(
                next,
            ),
        reachable::<SM>(from, to),
    ensures
        states.contains(to),
{
    let walk = choose|walk: Seq<SM::State>| walk_between::<SM>(walk, from, to);
    lemma_walk_stays_inside::<SM>(states, walk, walk.len() - 1);
}

/// The states that the inputs of `inputs` pass through from `from`, `from`
/// first, where they all lead somewhere.
proof fn lemma_run_gives_walk<SM: StateMachine>(from: SM::State, inputs: Seq<SM::Input>)
    requires
        run::<SM>(from, inputs) is Some,
    ensures
        reachable_within::<SM>(from, run::<SM>(from, inputs).unwrap(), inputs.len()),
    decreases inputs.len(),
{
    if inputs.len() == 0 {
        lemma_reachable_self::<SM>(from);
    } else {
        let front = inputs.drop_last();
        lemma_run_gives_walk::<SM>(from, front);
        let mid = run::<SM>(from, front).unwrap();
        let to = run::<SM>(from, inputs).unwrap();
        let walk = choose|walk: Seq<SM::State>|
            walk_between::<SM>(walk, from, mid) && walk.len() - 1 <= front.len();
        assert(leads::<SM>(mid, inputs.last(), to));
        lemma_walk_extend::<SM>(walk, to);
        assert(walk_between::<SM>(walk.push(to), from, to));
    }
}

/// The inputs of a walk: for each of its edges one input that makes it.
proof fn lemma_walk_gives_run<SM: StateMachine>(walk: Seq<SM::State>) -> (inputs: Seq<SM::Input>)
    requires
        is_walk::<SM>(walk),
    ensures
        inputs.len() == walk.len() - 1,
        run::<SM>(walk.first(), inputs) == Some(walk.last()),
    decreases walk.len(),
{
    if walk.len() == 1 {
        Seq::empty()
    } else {
        let n = walk.len() - 1;
        lemma_walk_prefix::<SM>(walk, n);
        let front = lemma_walk_gives_run::<SM>(walk.take(n));
        assert(edge::<SM>(walk[n - 1], walk[n - 1 + 1]));
        let a = walk[n - 1];
        let b = walk[n];
        let input = choose|input: SM::Input| leads::<SM>(a, input, b);
        let inputs = front.push(input);
        assert(inputs.drop_last() =~= front);
        inputs
    }
}

/// `to` can be reached from `from` exactly when some finite sequence of
/// inputs, each accepted where it is taken, leads from `from` to `to`; and
/// every state can be reached from itself, by the empty sequence.
pub proof fn lemma_reachable_by_inputs<SM: StateMachine>(from: SM::State, to: SM::State)
    ensures
        reachable::<SM>(from, to) <==> exists|inputs: Seq<SM::Input>|
            run::<SM>(from, inputs) == Some(to),
        reachable::<SM>(from, from),
{
    lemma_reachable_self::<SM>(from);
    if reachable::<SM>(from, to) {
        let walk = choose|walk: Seq<SM::State>| walk_between::<SM>(walk, from, to);
        let inputs = lemma_walk_gives_run::<SM>(walk);
        assert(run::<SM>(from, inputs) == Some(to));
    }
    if exists|inputs: Seq<SM::Input>| run::<SM>(from, inputs) == Some(to) {
        let inputs = choose|inputs: Seq<SM::Input>| run::<SM>(from, inputs) == Some(to);
        lemma_run_gives_walk::<SM>(from, inputs);
    }
}

/// A shortest walk is shortest in inputs too: where a shortest walk from
/// `from` to `to` has `n` edges, no sequence of fewer than `n` inputs leads
/// from `from` to `to`, and one of `n` inputs does.
pub proof fn lemma_no_shorter_run<SM: StateMachine>(
    walk: Seq<SM::State>,
    from: SM::State,
    to: SM::State,
)
    requires
        walk_between::<SM>(walk, from, to),
        forall|other: Seq<SM::State>| #[trigger]
            walk_between::<SM>(other, from, to) ==> walk.len() <= other.len(),
    ensures
        forall|inputs: Seq<SM::Input>| #[trigger]
            run::<SM>(from, inputs) == Some(to) ==> inputs.len() >= walk.len() - 1,
        exists|inputs: Seq<SM::Input>|
            inputs.len() == walk.len() - 1 && #[trigger] run::<SM>(from, inputs) == Some(to),
{
    assert forall|inputs: Seq<SM::Input>| #[trigger]
        run::<SM>(from, inputs) == Some(to) implies inputs.len() >= walk.len() - 1 by {
        lemma_run_gives_walk::<SM>(from, inputs);
        let other = choose|other: Seq<SM::State>|
            walk_between::<SM>(other, from, to) && other.len() - 1 <= inputs.len();
        assert(walk.len() <= other.len());
    }
    let inputs = lemma_walk_gives_run::<SM>(walk);
    assert(inputs.len() == walk.len() - 1 && run::<SM>(from, inputs) == Some(to));
}

/// A sequence without duplicates whose items all occur in `universe` is no
/// longer than `universe`.
pub proof fn lemma_distinct_bounded<T>(items: Seq<T>, universe: Seq<T>)
    requires
        items.no_duplicates(),
        forall|k: int| 0 <= k < items.len() ==> universe.contains(#[trigger] items[k]),
    ensures
        items.len() <= universe.len(),
{
    items.unique_seq_to_set();
    universe.lemma_cardinality_of_set();
    assert(items.to_set().subset_of(universe.to_set())) by {
        assert forall|x: T| items.to_set().contains(x) implies universe.to_set().contains(x) by {
            let k = choose|k: int| 0 <= k < items.len() && items[k] == x;
            assert(universe.contains(items[k]));
        }
    }
    vstd::set_lib::lemma_len_subset(items.to_set(), universe.to_set());
}

/// The length of a shortest walk, counted in edges, is the distance.
pub proof fn lemma_shortest_walk_is_distance<SM: StateMachine>(
    walk: Seq<SM::State>,
    from: SM::State,
    to: SM::State,
)
    requires
        walk_between::<SM>(walk, from, to),
        forall|other: Seq<SM::State>| #[trigger]
            walk_between::<SM>(other, from, to) ==> walk.len() <= other.len(),
    ensures
        walk.len() - 1 == distance::<SM>(from, to),
{
    let n = (walk.len() - 1) as nat;
    assert(reachable_within::<SM>(from, to, n));
    assert forall|m: nat| m < n implies !reachable_within::<SM>(from, to, m) by {
        if reachable_within::<SM>(from, to, m) {
            let other = choose|other: Seq<SM::State>|
                walk_between::<SM>(other, from, to) && other.len() - 1 <= m;
            assert(walk.len() <= other.len());
        }
    }
    let d = distance::<SM>(from, to);
    assert(reachable_within::<SM>(from, to, d) && forall|m: nat|
        m < d ==> !reachable_within::<SM>(from, to, m));
    if d < n {
        assert(!reachable_within::<SM>(from, to, d));
    }
    if n < d {
        assert(!reachable_within::<SM>(from, to, n));
    }
}

} // verus!
