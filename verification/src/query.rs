//! Questions about the transition graph of a machine.
//!
//! The answers depend on the description of the machine alone, never on a
//! running instance.
use vstd::prelude::*;
use crate::definition::{copy_of, holds, lawful, same, well_formed, StateMachine};
use crate::graph::{
    distance, edge, is_walk, leads, lemma_closed_holds_reachable, lemma_distinct_bounded,
    lemma_reachable_self, lemma_reachable_step, lemma_reachable_transitive,
    lemma_shortest_walk_is_distance, lemma_walk_prefix, reachable, walk_between,
};

verus! {

/// State machine query utilities: reachability analysis and path finding.
pub struct StateMachineQuery<SM: StateMachine> {
    _phantom: core::marker::PhantomData<SM>,
}

/// `from` and the listed states of the machine: every state that a search
/// from `from` can come across.
spec fn search_space<SM: StateMachine>(from: SM::State) -> Seq<SM::State> {
    SM::spec_states().push(from)
}

/// Some input among the first `n` of `inputs` leads from `a` to `b`.
spec fn leads_among<SM: StateMachine>(
    a: SM::State,
    inputs: Seq<SM::Input>,
    n: int,
    b: SM::State,
) -> bool {
    exists|i: int| 0 <= i < n && SM::spec_next_state(a, #[trigger] inputs[i]) == Some(b)
}

/// Appending keeps what a sequence holds and adds the item.
proof fn lemma_push_holds<T>(items: Seq<T>, item: T)
    ensures
        items.push(item).contains(item),
        forall|x: T| items.contains(x) ==> items.push(item).contains(x),
        forall|x: T| items.push(item).contains(x) ==> items.contains(x) || x == item,
{
    let longer = items.push(item);
    assert(longer[items.len() as int] == item);
    assert forall|x: T| items.contains(x) implies longer.contains(x) by {
        let k = choose|k: int| 0 <= k < items.len() && items[k] == x;
        assert(longer[k] == x);
    }
    assert forall|x: T| longer.contains(x) implies items.contains(x) || x == item by {
        let k = choose|k: int| 0 <= k < longer.len() && longer[k] == x;
        if k < items.len() {
            assert(items[k] == x);
        }
    }
}

/// What a depth-first search from `from` holds between two steps: `seen`
/// are the states whose edges have been followed, `open` those that wait.
spec fn searching<SM: StateMachine>(
    from: SM::State,
    seen: Seq<SM::State>,
    open: Seq<SM::State>,
) -> bool {
    &&& seen.no_duplicates()
    &&& seen.contains(from) || open.contains(from)
    &&& forall|x: SM::State|
        seen.contains(x) || open.contains(x) ==> #[trigger] reachable::<SM>(from, x)
    &&& forall|x: SM::State|
        seen.contains(x) || open.contains(x) ==> #[trigger] search_space::<SM>(from).contains(x)
    &&& forall|x: SM::State, next: SM::State|
        seen.contains(x) && #[trigger] edge::<SM>(x, next) ==> seen.contains(next)
            || open.contains(next)
}

/// What the search holds while it follows the edges of `current`, the state
/// that it took last, of which the first `n` inputs are done.
spec fn expanding<SM: StateMachine>(
    from: SM::State,
    seen: Seq<SM::State>,
    open: Seq<SM::State>,
    current: SM::State,
    n: int,
) -> bool {
    &&& seen.no_duplicates()
    &&& seen.contains(current)
    &&& seen.contains(from) || open.contains(from)
    &&& forall|x: SM::State|
        seen.contains(x) || open.contains(x) ==> #[trigger] reachable::<SM>(from, x)
    &&& forall|x: SM::State|
        seen.contains(x) || open.contains(x) ==> #[trigger] search_space::<SM>(from).contains(x)
    &&& forall|x: SM::State, next: SM::State|
        seen.contains(x) && x != current && #[trigger] edge::<SM>(x, next) ==> seen.contains(next)
            || open.contains(next)
    &&& forall|next: SM::State| #[trigger]
        leads_among::<SM>(current, SM::spec_valid_inputs(current), n, next) ==> seen.contains(
            next,
        ) || open.contains(next)
}

/// An edge out of a state goes over one of the inputs that the state accepts.
proof fn lemma_edge_is_among<SM: StateMachine>(a: SM::State, b: SM::State)
    requires
        edge::<SM>(a, b),
    ensures
        leads_among::<SM>(
            a,
            SM::spec_valid_inputs(a),
            SM::spec_valid_inputs(a).len() as int,
            b,
        ),
{
    let input = choose|input: SM::Input| leads::<SM>(a, input, b);
    let inputs = SM::spec_valid_inputs(a);
    let i = choose|i: int| 0 <= i < inputs.len() && inputs[i] == input;
    assert(SM::spec_next_state(a, inputs[i]) == Some(b));
}

/// One of the inputs that a state accepts gives an edge.
proof fn lemma_among_is_edge<SM: StateMachine>(a: SM::State, i: int, b: SM::State)
    requires
        0 <= i < SM::spec_valid_inputs(a).len(),
        SM::spec_next_state(a, SM::spec_valid_inputs(a)[i]) == Some(b),
    ensures
        edge::<SM>(a, b),
{
    assert(leads::<SM>(a, SM::spec_valid_inputs(a)[i], b));
}

/// The search space of a well-formed machine holds what an edge leads to.
proof fn lemma_edge_stays_in_space<SM: StateMachine>(from: SM::State, a: SM::State, b: SM::State)
    requires
        well_formed::<SM>(),
        edge::<SM>(a, b),
    ensures
        search_space::<SM>(from).contains(b),
{
    let input = choose|input: SM::Input| leads::<SM>(a, input, b);
    assert(SM::spec_next_state(a, input) == Some(b));
    let k = choose|k: int| 0 <= k < SM::spec_states().len() && SM::spec_states()[k] == b;
    assert(search_space::<SM>(from)[k] == b);
}

/// The states among `states` that have an edge to `target`, in their order.
pub open spec fn leading_to<SM: StateMachine>(states: Seq<SM::State>, target: SM::State) -> Seq<
    SM::State,
> {
    states.filter(|state: SM::State| edge::<SM>(state, target))
}

/// The states among `states` that accept no input, in their order.
pub open spec fn terminal<SM: StateMachine>(states: Seq<SM::State>) -> Seq<SM::State> {
    states.filter(|state: SM::State| SM::spec_valid_inputs(state).len() == 0)
}

/// Every listed state can be reached from the first, and the first from every
/// listed state. A machine without states is strongly connected.
pub open spec fn strongly_connected<SM: StateMachine>() -> bool {
    let states = SM::spec_states();
    states.len() == 0 || forall|k: int|
        0 <= k < states.len() ==> reachable::<SM>(states[0], #[trigger] states[k])
            && reachable::<SM>(states[k], states[0])
}

/// In a strongly connected machine every listed state can be reached from
/// every listed state.
pub proof fn lemma_strongly_connected_pairs<SM: StateMachine>(a: SM::State, b: SM::State)
    requires
        strongly_connected::<SM>(),
        SM::spec_states().contains(a),
        SM::spec_states().contains(b),
    ensures
        reachable::<SM>(a, b),
{
    let states = SM::spec_states();
    let i = choose|i: int| 0 <= i < states.len() && states[i] == a;
    let j = choose|j: int| 0 <= j < states.len() && states[j] == b;
    assert(reachable::<SM>(states[i], states[0]));
    assert(reachable::<SM>(states[0], states[j]));
    lemma_reachable_transitive::<SM>(a, states[0], b);
}

/// `leading_to`, one state further.
proof fn lemma_leading_to_push<SM: StateMachine>(
    states: Seq<SM::State>,
    state: SM::State,
    target: SM::State,
)
    ensures
        leading_to::<SM>(states.push(state), target) == if edge::<SM>(state, target) {
            leading_to::<SM>(states, target).push(state)
        } else {
            leading_to::<SM>(states, target)
        },
{
    states.lemma_filter_push(state, |state: SM::State| edge::<SM>(state, target));
}

/// `terminal`, one state further.
proof fn lemma_terminal_push<SM: StateMachine>(states: Seq<SM::State>, state: SM::State)
    ensures
        terminal::<SM>(states.push(state)) == if SM::spec_valid_inputs(state).len() == 0 {
            terminal::<SM>(states).push(state)
        } else {
            terminal::<SM>(states)
        },
{
    states.lemma_filter_push(state, |state: SM::State| SM::spec_valid_inputs(state).len() == 0);
}

/// `state` stands in `visited` at a position whose level is at most `n`.
spec fn found_within<S>(visited: Seq<S>, level: Seq<int>, state: S, n: int) -> bool {
    exists|at: int| 0 <= at < visited.len() && #[trigger] visited[at] == state && level[at] <= n
}

/// The tree that a breadth-first search from `from` has built: the states in
/// the order in which it found them, for each the position of the state from
/// which it was found, and its level, the number of edges that lead to it in
/// the tree.
spec fn bfs_tree<SM: StateMachine>(
    from: SM::State,
    visited: Seq<SM::State>,
    parent: Seq<usize>,
    level: Seq<int>,
) -> bool {
    &&& visited.len() > 0
    &&& parent.len() == visited.len()
    &&& level.len() == visited.len()
    &&& visited[0] == from
    &&& level[0] == 0
    &&& visited.no_duplicates()
    &&& forall|k: int|
        0 <= k < visited.len() ==> search_space::<SM>(from).contains(#[trigger] visited[k])
    &&& forall|k: int|
        0 < k < visited.len() ==> {
            &&& (#[trigger] parent[k]) < k
            &&& edge::<SM>(visited[parent[k] as int], visited[k])
            &&& level[k] == level[parent[k] as int] + 1
        }
    &&& forall|a: int, b: int| 0 <= a <= b < visited.len() ==> level[a] <= level[b]
}

/// How far the search has come when the states before `head` are done: what
/// they have an edge to has been found, no level is more than one above that
/// of `head`, and every state that a walk from `from` of no more edges than
/// the level of `head` ends in has been found, at a level no higher than the
/// walk is long.
spec fn bfs_front<SM: StateMachine>(
    from: SM::State,
    visited: Seq<SM::State>,
    level: Seq<int>,
    head: int,
) -> bool {
    &&& 0 <= head <= visited.len()
    &&& forall|k: int, next: SM::State|
        0 <= k < head && #[trigger] edge::<SM>(visited[k], next) ==> found_within(
            visited,
            level,
            next,
            level[k] + 1,
        )
    &&& head < visited.len() ==> {
        &&& forall|b: int| 0 <= b < visited.len() ==> #[trigger] level[b] <= level[head] + 1
        &&& forall|walk: Seq<SM::State>|
            #[trigger] is_walk::<SM>(walk) && walk.first() == from && walk.len() - 1
                <= level[head] ==> found_within(visited, level, walk.last(), walk.len() - 1)
    }
}

/// What the first `n` inputs of the state at `head` lead to has been found.
spec fn bfs_expanding<SM: StateMachine>(
    visited: Seq<SM::State>,
    level: Seq<int>,
    head: int,
    n: int,
) -> bool {
    forall|next: SM::State| #[trigger]
        leads_among::<SM>(visited[head], SM::spec_valid_inputs(visited[head]), n, next)
            ==> found_within(visited, level, next, level[head] + 1)
}

/// What has been found stays found when the search finds one more state.
proof fn lemma_found_grows<S>(
    visited: Seq<S>,
    level: Seq<int>,
    state: S,
    n: int,
    extra: S,
    extra_level: int,
)
    requires
        visited.len() == level.len(),
        found_within(visited, level, state, n),
    ensures
        found_within(visited.push(extra), level.push(extra_level), state, n),
{
    let at = choose|at: int| 0 <= at < visited.len() && #[trigger] visited[at] == state && level[at]
        <= n;
    assert(visited.push(extra)[at] == state && level.push(extra_level)[at] <= n);
}

/// The search starts with `from` alone, at level 0.
proof fn lemma_bfs_start<SM: StateMachine>(from: SM::State)
    ensures
        bfs_tree::<SM>(from, seq![from], seq![0usize], seq![0int]),
        bfs_front::<SM>(from, seq![from], seq![0int], 0),
{
    let visited = seq![from];
    let level = seq![0int];
    lemma_push_holds(SM::spec_states(), from);
    assert forall|walk: Seq<SM::State>|
        #[trigger] is_walk::<SM>(walk) && walk.first() == from && walk.len() - 1
            <= level[0] implies found_within(visited, level, walk.last(), walk.len() - 1) by {
        assert(visited[0] == walk.last());
    }
}

/// A state that has been found was found no more than one level above the
/// state at `head`.
proof fn lemma_bfs_known<SM: StateMachine>(
    from: SM::State,
    visited: Seq<SM::State>,
    parent: Seq<usize>,
    level: Seq<int>,
    head: int,
    next: SM::State,
)
    requires
        bfs_tree::<SM>(from, visited, parent, level),
        bfs_front::<SM>(from, visited, level, head),
        head < visited.len(),
        visited.contains(next),
    ensures
        found_within(visited, level, next, level[head] + 1),
{
    let at = choose|at: int| 0 <= at < visited.len() && visited[at] == next;
    assert(level[at] <= level[head] + 1);
    assert(visited[at] == next);
}

/// The search finds `next` over an edge from the state at `head`.
proof fn lemma_bfs_discover<SM: StateMachine>(
    from: SM::State,
    visited: Seq<SM::State>,
    parent: Seq<usize>,
    level: Seq<int>,
    head: int,
    n: int,
    next: SM::State,
)
    requires
        well_formed::<SM>(),
        bfs_tree::<SM>(from, visited, parent, level),
        bfs_front::<SM>(from, visited, level, head),
        head < visited.len(),
        head <= usize::MAX,
        bfs_expanding::<SM>(visited, level, head, n),
        edge::<SM>(visited[head], next),
        !visited.contains(next),
    ensures
        bfs_tree::<SM>(
            from,
            visited.push(next),
            parent.push(head as usize),
            level.push(level[head] + 1),
        ),
        bfs_front::<SM>(from, visited.push(next), level.push(level[head] + 1), head),
        bfs_expanding::<SM>(visited.push(next), level.push(level[head] + 1), head, n),
        found_within(visited.push(next), level.push(level[head] + 1), next, level[head] + 1),
        visited.push(next).len() <= search_space::<SM>(from).len(),
{
    let visited2 = visited.push(next);
    let parent2 = parent.push(head as usize);
    let level2 = level.push(level[head] + 1);
    let last = visited.len() as int;
    lemma_edge_stays_in_space::<SM>(from, visited[head], next);
    assert(visited2[last] == next);
    assert(visited2.no_duplicates());
    assert forall|k: int| 0 < k < visited2.len() implies {
        &&& (#[trigger] parent2[k]) < k
        &&& edge::<SM>(visited2[parent2[k] as int], visited2[k])
        &&& level2[k] == level2[parent2[k] as int] + 1
    } by {
        if k < last {
            assert(parent[k] < k);
        }
    }
    assert forall|a: int, b: int| 0 <= a <= b < visited2.len() implies level2[a] <= level2[b] by {
        if b == last && a < last {
            assert(level[a] <= level[head] + 1);
        }
    }
    assert(bfs_tree::<SM>(from, visited2, parent2, level2));
    assert forall|k: int, far: SM::State|
        0 <= k < head && #[trigger] edge::<SM>(visited2[k], far) implies found_within(
        visited2,
        level2,
        far,
        level2[k] + 1,
    ) by {
        assert(edge::<SM>(visited[k], far));
        lemma_found_grows(visited, level, far, level[k] + 1, next, level[head] + 1);
    }
    assert forall|b: int| 0 <= b < visited2.len() implies #[trigger] level2[b] <= level2[head]
        + 1 by {
        if b < last {
            assert(level[b] <= level[head] + 1);
        }
    }
    assert forall|walk: Seq<SM::State>|
        #[trigger] is_walk::<SM>(walk) && walk.first() == from && walk.len() - 1
            <= level2[head] implies found_within(
        visited2,
        level2,
        walk.last(),
        walk.len() - 1,
    ) by {
        lemma_found_grows(visited, level, walk.last(), walk.len() - 1, next, level[head] + 1);
    }
    assert forall|far: SM::State| #[trigger]
        leads_among::<SM>(
            visited2[head],
            SM::spec_valid_inputs(visited2[head]),
            n,
            far,
        ) implies found_within(visited2, level2, far, level2[head] + 1) by {
        assert(leads_among::<SM>(visited[head], SM::spec_valid_inputs(visited[head]), n, far));
        lemma_found_grows(visited, level, far, level[head] + 1, next, level[head] + 1);
    }
    lemma_distinct_bounded(visited2, search_space::<SM>(from));
}

/// The state at `head` is done: the search goes on with the next.
proof fn lemma_bfs_advance<SM: StateMachine>(
    from: SM::State,
    visited: Seq<SM::State>,
    parent: Seq<usize>,
    level: Seq<int>,
    head: int,
)
    requires
        bfs_tree::<SM>(from, visited, parent, level),
        bfs_front::<SM>(from, visited, level, head),
        head < visited.len(),
        bfs_expanding::<SM>(
            visited,
            level,
            head,
            SM::spec_valid_inputs(visited[head]).len() as int,
        ),
    ensures
        bfs_front::<SM>(from, visited, level, head + 1),
{
    assert forall|k: int, next: SM::State|
        0 <= k < head + 1 && #[trigger] edge::<SM>(visited[k], next) implies found_within(
        visited,
        level,
        next,
        level[k] + 1,
    ) by {
        if k == head {
            lemma_edge_is_among::<SM>(visited[head], next);
        }
    }
    if head + 1 < visited.len() {
        assert(level[head] <= level[head + 1]);
        assert(level[head + 1] <= level[head] + 1);
        assert forall|b: int| 0 <= b < visited.len() implies #[trigger] level[b] <= level[head + 1]
            + 1 by {
            assert(level[b] <= level[head] + 1);
        }
        assert forall|walk: Seq<SM::State>|
            #[trigger] is_walk::<SM>(walk) && walk.first() == from && walk.len() - 1 <= level[head
                + 1] implies found_within(visited, level, walk.last(), walk.len() - 1) by {
            let n = walk.len() - 1;
            if n > level[head] {
                let start = walk.take(n);
                lemma_walk_prefix::<SM>(walk, n);
                assert(found_within(visited, level, start.last(), start.len() - 1));
                let at = choose|at: int|
                    0 <= at < visited.len() && #[trigger] visited[at] == start.last() && level[at]
                        <= start.len() - 1;
                if at > head {
                    assert(level[head + 1] <= level[at]);
                }
                assert(edge::<SM>(walk[n - 1], walk[n - 1 + 1]));
                assert(edge::<SM>(visited[at], walk.last()));
                assert(found_within(visited, level, walk.last(), level[at] + 1));
                let found = choose|found: int|
                    0 <= found < visited.len() && #[trigger] visited[found] == walk.last()
                        && level[found] <= level[at] + 1;
                assert(visited[found] == walk.last() && level[found] <= n);
            }
        }
    }
}

impl<SM: StateMachine> StateMachineQuery<SM> {
    /// Get all states reachable from a given state, the state itself among
    /// them, each once, in the order in which a depth-first search takes them
    /// up.
    pub fn reachable_states(from: &SM::State) -> (r: Vec<SM::State>)
        requires
            well_formed::<SM>(),
        ensures
            r@.no_duplicates(),
            r@.len() > 0 && r@[0] == *from,
            forall|state: SM::State| r@.contains(state) <==> reachable::<SM>(*from, state),
    {
        let mut seen: Vec<SM::State> = Vec::new();
        let mut open: Vec<SM::State> = Vec::new();
        open.push(copy_of(from));
        proof {
            lemma_reachable_self::<SM>(*from);
            lemma_push_holds(Seq::<SM::State>::empty(), *from);
            lemma_push_holds(SM::spec_states(), *from);
        }
        while open.len() > 0
            invariant
                well_formed::<SM>(),
                searching::<SM>(*from, seen@, open@),
                seen@.len() <= search_space::<SM>(*from).len(),
                if seen@.len() == 0 {
                    open@ =~= seq![*from]
                } else {
                    seen@[0] == *from
                },
            decreases search_space::<SM>(*from).len() - seen@.len(), open@.len(),
        {
            let ghost open_before = open@;
            let ghost seen_before = seen@;
            let current = open.pop().unwrap();
            proof {
                assert(open_before =~= open@.push(current));
                lemma_push_holds(open@, current);
            }
            if holds(&seen, &current) {
                continue;
            }
            let inputs = SM::valid_inputs(&current);
            seen.push(copy_of(&current));
            proof {
                lemma_push_holds(seen_before, current);
                lemma_distinct_bounded(seen@, search_space::<SM>(*from));
            }
            let mut j: usize = 0;
            while j < inputs.len()
                invariant
                    well_formed::<SM>(),
                    j <= inputs.len(),
                    inputs@ == SM::spec_valid_inputs(current),
                    expanding::<SM>(*from, seen@, open@, current, j as int),
                    seen@.len() > 0 && seen@[0] == *from,
                decreases inputs.len() - j,
            {
                let ghost open_then = open@;
                let step = SM::next_state(&current, &inputs[j]);
                let ghost target = step;
                match step {
                    Some(next_state) => {
                        proof {
                            lemma_among_is_edge::<SM>(current, j as int, next_state);
                            lemma_reachable_step::<SM>(*from, current, next_state);
                            lemma_edge_stays_in_space::<SM>(*from, current, next_state);
                            lemma_push_holds(open_then, next_state);
                        }
                        if !holds(&seen, &next_state) {
                            open.push(next_state);
                        }
                    },
                    None => {},
                }
                proof {
                    assert forall|next: SM::State| #[trigger]
                        leads_among::<SM>(
                            current,
                            SM::spec_valid_inputs(current),
                            j + 1,
                            next,
                        ) implies seen@.contains(next) || open@.contains(next) by {
                        let i = choose|i: int|
                            0 <= i < j + 1 && SM::spec_next_state(
                                current,
                                #[trigger] SM::spec_valid_inputs(current)[i],
                            ) == Some(next);
                        if i < j {
                            assert(leads_among::<SM>(
                                current,
                                SM::spec_valid_inputs(current),
                                j as int,
                                next,
                            ));
                        } else {
                            assert(target == Some(next));
                        }
                    }
                }
                j += 1;
            }
            proof {
                assert forall|x: SM::State, next: SM::State|
                    seen@.contains(x) && #[trigger] edge::<SM>(x, next) implies seen@.contains(
                        next,
                    ) || open@.contains(next) by {
                    if x == current {
                        lemma_edge_is_among::<SM>(current, next);
                    }
                }
            }
        }
        proof {
            assert forall|state: SM::State| reachable::<SM>(*from, state) implies seen@.contains(
                state,
            ) by {
                assert forall|i: int, next: SM::State|
                    0 <= i < seen@.len() && #[trigger] edge::<SM>(
                        seen@[i],
                        next,
                    ) implies seen@.contains(next) by {
                    assert(seen@.contains(seen@[i]));
                }
                lemma_closed_holds_reachable::<SM>(seen@, *from, state);
            }
        }
        seen
    }

    /// Whether one transition leads from `from` to `to`.
    pub fn has_edge(from: &SM::State, to: &SM::State) -> (r: bool)
        requires
            lawful::<SM>(),
        ensures
            r == edge::<SM>(*from, *to),
    {
        let inputs = SM::valid_inputs(from);
        let mut j: usize = 0;
        while j < inputs.len()
            invariant
                lawful::<SM>(),
                j <= inputs.len(),
                inputs@ == SM::spec_valid_inputs(*from),
                !leads_among::<SM>(*from, inputs@, j as int, *to),
            decreases inputs.len() - j,
        {
            match SM::next_state(from, &inputs[j]) {
                Some(next_state) => {
                    if same(&next_state, to) {
                        proof {
                            lemma_among_is_edge::<SM>(*from, j as int, *to);
                        }
                        return true;
                    }
                },
                None => {},
            }
            proof {
                if leads_among::<SM>(*from, inputs@, j + 1, *to) {
                    let i = choose|i: int|
                        0 <= i < j + 1 && SM::spec_next_state(*from, #[trigger] inputs@[i])
                            == Some(*to);
                    if i < j {
                        assert(leads_among::<SM>(*from, inputs@, j as int, *to));
                    }
                }
            }
            j += 1;
        }
        proof {
            if edge::<SM>(*from, *to) {
                lemma_edge_is_among::<SM>(*from, *to);
            }
        }
        false
    }

    /// Get all states that can reach the target state through a single
    /// transition: the listed states that have a transition to `target`, in
    /// the order of the list, each as often as the list holds it.
    pub fn states_leading_to(target: &SM::State) -> (r: Vec<SM::State>)
        requires
            lawful::<SM>(),
        ensures
            r@ == leading_to::<SM>(SM::spec_states(), *target),
    {
        let states = SM::states();
        let mut result: Vec<SM::State> = Vec::new();
        let mut i: usize = 0;
        proof {
            assert(leading_to::<SM>(Seq::empty(), *target) =~= Seq::empty()) by {
                reveal(Seq::filter);
            }
        }
        while i < states.len()
            invariant
                lawful::<SM>(),
                i <= states.len(),
                states@ == SM::spec_states(),
                result@ == leading_to::<SM>(states@.take(i as int), *target),
            decreases states.len() - i,
        {
            proof {
                assert(states@.take(i + 1) =~= states@.take(i as int).push(states@[i as int]));
                lemma_leading_to_push::<SM>(states@.take(i as int), states@[i as int], *target);
            }
            if Self::has_edge(&states[i], target) {
                result.push(copy_of(&states[i]));
            }
            i += 1;
        }
        proof {
            assert(states@.take(states@.len() as int) =~= states@);
        }
        result
    }

    /// Check if a path exists from one state to another. A state has a path
    /// to itself.
    pub fn has_path(from: &SM::State, to: &SM::State) -> (r: bool)
        requires
            well_formed::<SM>(),
        ensures
            r == reachable::<SM>(*from, *to),
    {
        let states = Self::reachable_states(from);
        holds(&states, to)
    }

    /// Get all terminal states in the state machine: the listed states that
    /// accept no input, in the order of the list.
    pub fn terminal_states() -> (r: Vec<SM::State>)
        requires
            lawful::<SM>(),
        ensures
            r@ == terminal::<SM>(SM::spec_states()),
    {
        let states = SM::states();
        let mut result: Vec<SM::State> = Vec::new();
        let mut i: usize = 0;
        proof {
            assert(terminal::<SM>(Seq::empty()) =~= Seq::empty()) by {
                reveal(Seq::filter);
            }
        }
        while i < states.len()
            invariant
                lawful::<SM>(),
                i <= states.len(),
                states@ == SM::spec_states(),
                result@ == terminal::<SM>(states@.take(i as int)),
            decreases states.len() - i,
        {
            proof {
                assert(states@.take(i + 1) =~= states@.take(i as int).push(states@[i as int]));
                lemma_terminal_push::<SM>(states@.take(i as int), states@[i as int]);
            }
            if SM::valid_inputs(&states[i]).len() == 0 {
                result.push(copy_of(&states[i]));
            }
            i += 1;
        }
        proof {
            assert(states@.take(states@.len() as int) =~= states@);
        }
        result
    }

    /// Check if the state machine is strongly connected: whether every listed
    /// state can be reached from the first, and the first from every listed
    /// state.
    pub fn is_strongly_connected() -> (r: bool)
        requires
            well_formed::<SM>(),
        ensures
            r == strongly_connected::<SM>(),
    {
        let states = SM::states();
        if states.len() == 0 {
            return true;
        }
        // Check if all other states are reachable from the first state
        let reachable_from_first = Self::reachable_states(&states[0]);
        let mut i: usize = 0;
        while i < states.len()
            invariant
                well_formed::<SM>(),
                i <= states.len(),
                states@ == SM::spec_states(),
                states@.len() > 0,
                forall|state: SM::State|
                    reachable_from_first@.contains(state) <==> reachable::<SM>(states@[0], state),
                forall|k: int| 0 <= k < i ==> reachable::<SM>(states@[0], #[trigger] states@[k]),
            decreases states.len() - i,
        {
            if !holds(&reachable_from_first, &states[i]) {
                return false;
            }
            i += 1;
        }
        // Check if the first state is reachable from all other states
        let mut j: usize = 1;
        proof {
            lemma_reachable_self::<SM>(states@[0]);
        }
        while j < states.len()
            invariant
                well_formed::<SM>(),
                1 <= j <= states.len(),
                states@ == SM::spec_states(),
                forall|k: int|
                    0 <= k < states@.len() ==> reachable::<SM>(states@[0], #[trigger] states@[k]),
                forall|k: int| 0 <= k < j ==> reachable::<SM>(#[trigger] states@[k], states@[0]),
            decreases states.len() - j,
        {
            if !Self::has_path(&states[j], &states[0]) {
                return false;
            }
            j += 1;
        }
        true
    }

    /// The walk from `visited[0]` to `visited[last]` along the tree of a
    /// breadth-first search.
    fn trace_back(
        visited: &Vec<SM::State>,
        parent: &Vec<usize>,
        last: usize,
        Ghost(level): Ghost<Seq<int>>,
    ) -> (path: Vec<SM::State>)
        requires
            lawful::<SM>(),
            bfs_tree::<SM>(visited@[0], visited@, parent@, level),
            last < visited.len(),
        ensures
            walk_between::<SM>(path@, visited@[0], visited@[last as int]),
            path@.len() == level[last as int] + 1,
    {
        let mut backwards: Vec<SM::State> = Vec::new();
        let mut at: usize = last;
        backwards.push(copy_of(&visited[at]));
        while at != 0
            invariant
                lawful::<SM>(),
                bfs_tree::<SM>(visited@[0], visited@, parent@, level),
                at <= last < visited.len(),
                backwards@.len() > 0,
                backwards@[0] == visited@[last as int],
                backwards@.last() == visited@[at as int],
                backwards@.len() == level[last as int] - level[at as int] + 1,
                forall|k: int|
                    0 <= k < backwards@.len() - 1 ==> edge::<SM>(
                        #[trigger] backwards@[k + 1],
                        backwards@[k],
                    ),
            decreases at,
        {
            let ghost before = backwards@;
            let ghost child = at;
            assert(parent@[at as int] < at);
            at = parent[at];
            backwards.push(copy_of(&visited[at]));
            proof {
                assert forall|k: int| 0 <= k < backwards@.len() - 1 implies edge::<SM>(
                    #[trigger] backwards@[k + 1],
                    backwards@[k],
                ) by {
                    if k < before.len() - 1 {
                        assert(edge::<SM>(before[k + 1], before[k]));
                    } else {
                        assert(backwards@[k] == visited@[child as int]);
                        assert(backwards@[k + 1] == visited@[at as int]);
                    }
                }
            }
        }
        let mut path: Vec<SM::State> = Vec::new();
        let mut i: usize = backwards.len();
        while i > 0
            invariant
                lawful::<SM>(),
                i <= backwards@.len(),
                path@.len() == backwards@.len() - i,
                forall|k: int|
                    0 <= k < path@.len() ==> #[trigger] path@[k] == backwards@[backwards@.len() - 1
                        - k],
            decreases i,
        {
            i -= 1;
            path.push(copy_of(&backwards[i]));
        }
        proof {
            assert forall|k: int| 0 <= k < path@.len() - 1 implies edge::<SM>(
                #[trigger] path@[k],
                path@[k + 1],
            ) by {
                let m = backwards@.len() - 2 - k;
                assert(edge::<SM>(backwards@[m + 1], backwards@[m]));
                assert(path@[k + 1] == backwards@[backwards@.len() - 1 - (k + 1)]);
            }
            assert(path@[0] == backwards@[backwards@.len() - 1 - 0]);
            assert(path@[path@.len() - 1] == backwards@[backwards@.len() - 1 - (path@.len() - 1)]);
        }
        path
    }

    /// Find the shortest path from the starting state to the target state by
    /// breadth-first search.
    ///
    /// The path is given by its states, from `from` to `to`; from a state to
    /// itself it is that state alone. No walk from `from` to `to` has fewer
    /// states. Of several shortest paths the search returns the one that it
    /// finds first, taking the states in the order in which it found them and
    /// the inputs of a state in the order in which the state lists them.
    pub fn shortest_path(from: &SM::State, to: &SM::State) -> (r: Option<Vec<SM::State>>)
        requires
            well_formed::<SM>(),
        ensures
            match r {
                Some(path) => {
                    &&& walk_between::<SM>(path@, *from, *to)
                    &&& forall|walk: Seq<SM::State>| #[trigger]
                        walk_between::<SM>(walk, *from, *to) ==> path@.len() <= walk.len()
                    &&& path@.len() - 1 == distance::<SM>(*from, *to)
                },
                None => !reachable::<SM>(*from, *to),
            },
            r is Some <==> reachable::<SM>(*from, *to),
            *from == *to ==> (r matches Some(path) && path@ == seq![*from]),
    {
        if same(from, to) {
            let mut path: Vec<SM::State> = Vec::new();
            path.push(copy_of(from));
            proof {
                lemma_shortest_walk_is_distance::<SM>(path@, *from, *to);
            }
            return Some(path);
        }
        let mut visited: Vec<SM::State> = Vec::new();
        let mut parent: Vec<usize> = Vec::new();
        let ghost mut level: Seq<int> = seq![0int];
        let mut head: usize = 0;
        visited.push(copy_of(from));
        parent.push(0);
        proof {
            lemma_bfs_start::<SM>(*from);
            lemma_distinct_bounded(visited@, search_space::<SM>(*from));
        }
        while head < visited.len()
            invariant
                well_formed::<SM>(),
                *from != *to,
                bfs_tree::<SM>(*from, visited@, parent@, level),
                bfs_front::<SM>(*from, visited@, level, head as int),
                !visited@.contains(*to),
                visited@.len() <= search_space::<SM>(*from).len(),
            decreases search_space::<SM>(*from).len() - head,
        {
            let current = copy_of(&visited[head]);
            let inputs = SM::valid_inputs(&current);
            let mut j: usize = 0;
            while j < inputs.len()
                invariant
                    well_formed::<SM>(),
                    *from != *to,
                    j <= inputs.len(),
                    head < visited.len(),
                    current == visited@[head as int],
                    inputs@ == SM::spec_valid_inputs(current),
                    bfs_tree::<SM>(*from, visited@, parent@, level),
                    bfs_front::<SM>(*from, visited@, level, head as int),
                    bfs_expanding::<SM>(visited@, level, head as int, j as int),
                    !visited@.contains(*to),
                    visited@.len() <= search_space::<SM>(*from).len(),
                decreases inputs.len() - j,
            {
                let step = SM::next_state(&current, &inputs[j]);
                let ghost target = step;
                let ghost level_then = level;
                match step {
                    Some(next_state) => {
                        proof {
                            lemma_among_is_edge::<SM>(current, j as int, next_state);
                        }
                        if !holds(&visited, &next_state) {
                            let found = same(&next_state, to);
                            proof {
                                lemma_bfs_discover::<SM>(
                                    *from,
                                    visited@,
                                    parent@,
                                    level,
                                    head as int,
                                    j as int,
                                    next_state,
                                );
                                if found {
                                    // a walk to `to` of no more edges than the level of
                                    // `current` would have had `to` found before
                                    assert forall|walk: Seq<SM::State>| #[trigger]
                                        walk_between::<SM>(walk, *from, *to) implies walk.len()
                                        - 1 > level[head as int] by {
                                        if walk.len() - 1 <= level[head as int] {
                                            assert(is_walk::<SM>(walk));
                                            assert(found_within(
                                                visited@,
                                                level,
                                                walk.last(),
                                                walk.len() - 1,
                                            ));
                                        }
                                    }
                                }
                                lemma_push_holds(visited@, next_state);
                                level = level.push(level[head as int] + 1);
                            }
                            visited.push(next_state);
                            parent.push(head);
                            if found {
                                let path = Self::trace_back(
                                    &visited,
                                    &parent,
                                    visited.len() - 1,
                                    Ghost(level),
                                );
                                proof {
                                    lemma_shortest_walk_is_distance::<SM>(path@, *from, *to);
                                }
                                return Some(path);
                            }
                        } else {
                            proof {
                                lemma_bfs_known::<SM>(
                                    *from,
                                    visited@,
                                    parent@,
                                    level,
                                    head as int,
                                    next_state,
                                );
                            }
                        }
                    },
                    None => {},
                }
                proof {
                    assert(visited@[head as int] == current);
                    assert(level[head as int] == level_then[head as int]);
                    assert(bfs_expanding::<SM>(visited@, level, head as int, j as int));
                    assert forall|next: SM::State| #[trigger]
                        leads_among::<SM>(
                            current,
                            SM::spec_valid_inputs(current),
                            j + 1,
                            next,
                        ) implies found_within(visited@, level, next, level[head as int] + 1) by {
                        let i = choose|i: int|
                            0 <= i < j + 1 && SM::spec_next_state(
                                current,
                                #[trigger] SM::spec_valid_inputs(current)[i],
                            ) == Some(next);
                        if i < j {
                            assert(leads_among::<SM>(
                                current,
                                SM::spec_valid_inputs(current),
                                j as int,
                                next,
                            ));
                        } else {
                            assert(target == Some(next));
                        }
                    }
                }
                j += 1;
            }
            proof {
                lemma_bfs_advance::<SM>(*from, visited@, parent@, level, head as int);
            }
            head += 1;
        }
        proof {
            if reachable::<SM>(*from, *to) {
                assert forall|i: int, next: SM::State|
                    0 <= i < visited@.len() && #[trigger] edge::<SM>(
                        visited@[i],
                        next,
                    ) implies visited@.contains(next) by {
                    assert(found_within(visited@, level, next, level[i] + 1));
                }
                assert(visited@[0] == *from);
                lemma_closed_holds_reachable::<SM>(visited@, *from, *to);
            }
        }
        None
    }
}

} // verus!
