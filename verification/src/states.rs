//! The values of locals at each node of a control-flow graph.
use crate::callable::{merged_callable_value, CallableValue};
use crate::effects::{transferred, Mutations};
use crate::evaluate::{held, Returns, State};
use crate::flow::{graph_ok, EdgeKind, FlowEdge, FlowGraph};
use crate::ids::LocalRef;
use crate::lattice::{
    covers, covers_is_reflexive, covers_is_transitive, join, join_covers_both, Callable,
};
use crate::scope::{Scope, ScopeView};
use crate::tables::lemma_taken;
use std::collections::VecDeque;
use vstd::prelude::*;

verus! {

/// The locals of two flows that meet. A local that the first flow does not list counts there as
/// one of which nothing is known.
pub open spec fn merged_states(
    current: Map<LocalRef, Callable>,
    incoming: Map<LocalRef, Callable>,
) -> Map<LocalRef, Callable> {
    Map::new(
        |k: LocalRef| current.contains_key(k) || incoming.contains_key(k),
        |k: LocalRef|
            if incoming.contains_key(k) {
                join(held(current, k), incoming[k])
            } else {
                current[k]
            },
    )
}

/// A flow adds something to what is known of a local.
pub open spec fn adds(
    current: Map<LocalRef, Callable>,
    incoming: Map<LocalRef, Callable>,
    k: LocalRef,
) -> bool {
    incoming.contains_key(k) && join(held(current, k), incoming[k]) != held(current, k)
}

/// A flow adds something to what is known of the locals.
pub open spec fn adds_any(
    current: Map<LocalRef, Callable>,
    incoming: Map<LocalRef, Callable>,
) -> bool {
    exists|k: LocalRef| adds(current, incoming, k)
}

/// Joins a flow into another, and says whether it added something.
pub fn merge_callable_states(current: &mut State, incoming: &State) -> (changed: bool)
    ensures
        final(current)@ == merged_states(old(current)@, incoming@),
        changed == adds_any(old(current)@, incoming@),
{
    let ghost start = current@;
    let ghost keys = incoming.sequence();
    let n: usize = incoming.len();
    let mut changed = false;
    let mut i: usize = 0;
    while i < n
        invariant
            i <= n,
            n == keys.len(),
            keys == incoming.sequence(),
            keys.no_duplicates(),
            incoming@.dom() == keys.to_set(),
            forall|k: LocalRef|
                #![trigger current@.contains_key(k)]
                current@.contains_key(k) <==> start.contains_key(k) || keys.take(
                    i as int,
                ).contains(k),
            forall|k: LocalRef| #[trigger]
                keys.take(i as int).contains(k) ==> current@[k] == join(
                    held(start, k),
                    incoming@[k],
                ),
            forall|k: LocalRef|
                current@.contains_key(k) && !keys.take(i as int).contains(k)
                    ==> #[trigger] current@[k] == start[k],
            changed ==> adds_any(start, incoming@),
            !changed ==> forall|k: LocalRef| #[trigger]
                keys.take(i as int).contains(k) ==> !adds(start, incoming@, k),
        decreases n - i,
    {
        let local = incoming.key_at(i);
        let value = incoming.value_at(i);
        proof {
            lemma_taken(keys, i as int);
            assert(!keys.take(i as int).contains(*local)) by {
                if keys.take(i as int).contains(*local) {
                    let j = choose|j: int| 0 <= j < i && keys.take(i as int)[j] == *local;
                    assert(keys[j] == keys[i as int]);
                }
            }
        }
        let existing = match current.get(local) {
            Some(held) => held.clone(),
            None => CallableValue::default(),
        };
        assert(existing@ == held(start, *local));
        let merged = merged_callable_value(&existing, value);
        if !existing.same(&merged) {
            changed = true;
            assert(adds(start, incoming@, *local));
        }
        current.insert(*local, merged);
        i += 1;
    }
    proof {
        assert(keys.take(n as int) =~= keys);
        assert forall|k: LocalRef| incoming@.contains_key(k) <==> keys.contains(k) by {
            assert(keys.to_set().contains(k) <==> keys.contains(k));
        }
        assert(current@ =~= merged_states(start, incoming@));
        if !changed && adds_any(start, incoming@) {
            let k = choose|k: LocalRef| adds(start, incoming@, k);
            assert(keys.take(n as int).contains(k));
        }
    }
    changed
}

/// The known states, and the nodes that are still to be followed.
#[verifier::ext_equal]
pub struct Progress {
    pub states: Seq<Option<Map<LocalRef, Callable>>>,
    pub work: Seq<usize>,
}

/// What flows along an edge. A node that throws has stored nothing.
pub open spec fn passed(
    edge: FlowEdge,
    state: Map<LocalRef, Callable>,
    next: Map<LocalRef, Callable>,
) -> Map<LocalRef, Callable> {
    if edge.kind is Exceptional {
        state
    } else {
        next
    }
}

/// The progress after a flow reached a node.
pub open spec fn reached(
    progress: Progress,
    to: usize,
    flow: Map<LocalRef, Callable>,
) -> Progress {
    match progress.states[to as int] {
        Some(existing) => Progress {
            states: progress.states.update(to as int, Some(merged_states(existing, flow))),
            work: if adds_any(existing, flow) {
                progress.work.push(to)
            } else {
                progress.work
            },
        },
        None => Progress {
            states: progress.states.update(to as int, Some(flow)),
            work: progress.work.push(to),
        },
    }
}

/// The progress after the edges of a node from position `i` on were followed.
pub open spec fn followed_from(
    edges: Seq<FlowEdge>,
    node: usize,
    state: Map<LocalRef, Callable>,
    next: Map<LocalRef, Callable>,
    i: int,
    progress: Progress,
) -> Progress
    decreases edges.len() - i,
{
    if 0 <= i < edges.len() {
        followed_from(
            edges,
            node,
            state,
            next,
            i + 1,
            if edges[i].from == node {
                reached(progress, edges[i].to, passed(edges[i], state, next))
            } else {
                progress
            },
        )
    } else {
        progress
    }
}

/// The progress after the first node that is to be followed.
pub open spec fn stepped(
    scope: ScopeView,
    graph: FlowGraph,
    results: Map<Seq<char>, Callable>,
    mutations: Map<Seq<char>, Seq<Option<Callable>>>,
    progress: Progress,
) -> Progress {
    let node = progress.work[0];
    let rest = Progress { work: progress.work.drop_first(), ..progress };
    match progress.states[node as int] {
        Some(state) => followed_from(
            graph.edges@,
            node,
            state,
            transferred(scope, graph.nodes@[node as int], state, results, mutations),
            0,
            rest,
        ),
        None => rest,
    }
}

/// The states when no node is left to be followed; nothing when that takes more steps than
/// allowed.
pub open spec fn settled_states(
    scope: ScopeView,
    graph: FlowGraph,
    results: Map<Seq<char>, Callable>,
    mutations: Map<Seq<char>, Seq<Option<Callable>>>,
    progress: Progress,
    steps: nat,
) -> Option<Seq<Option<Map<LocalRef, Callable>>>>
    decreases steps,
{
    if progress.work.len() == 0 {
        Some(progress.states)
    } else if steps == 0 {
        None
    } else {
        settled_states(
            scope,
            graph,
            results,
            mutations,
            stepped(scope, graph, results, mutations, progress),
            (steps - 1) as nat,
        )
    }
}

/// The progress at the start: only the entry has been reached.
pub open spec fn started(graph: FlowGraph, initial: Map<LocalRef, Callable>) -> Progress {
    Progress {
        states: Seq::new(
            graph.nodes@.len(),
            |i: int|
                if i == graph.entry {
                    Some(initial)
                } else {
                    None
                },
        ),
        work: seq![graph.entry],
    }
}

/// How many nodes are followed before the states of one callable are given up.
pub const MAX_STEPS: u64 = 0xffff_ffff_ffff_ffff;

/// The values of locals at each node of a graph.
pub open spec fn flow_states(
    scope: ScopeView,
    graph: FlowGraph,
    results: Map<Seq<char>, Callable>,
    mutations: Map<Seq<char>, Seq<Option<Callable>>>,
    initial: Map<LocalRef, Callable>,
) -> Option<Seq<Option<Map<LocalRef, Callable>>>> {
    settled_states(
        scope,
        graph,
        results,
        mutations,
        started(graph, initial),
        MAX_STEPS as nat,
    )
}

/// The views of optional states.
pub open spec fn state_views(states: Seq<Option<State>>) -> Seq<Option<Map<LocalRef, Callable>>> {
    Seq::new(
        states.len(),
        |i: int|
            match states[i] {
                Some(state) => Some(state@),
                None => None,
            },
    )
}

fn copy_state(state: &Option<State>) -> (r: Option<State>)
    ensures
        match (*state, r) {
            (Some(a), Some(b)) => a@ == b@,
            (None, None) => true,
            _ => false,
        },
{
    match state {
        Some(s) => Some(s.copy()),
        None => None,
    }
}

impl<'a> Scope<'a> {
    fn follow_edges(
        &self,
        graph: &FlowGraph,
        node: usize,
        state: &State,
        next: &State,
        states: &mut Vec<Option<State>>,
        work: &mut VecDeque<usize>,
    )
        requires
            graph_ok(*graph),
            old(states)@.len() == graph.nodes@.len(),
            forall|i: int| 0 <= i < old(work)@.len() ==> #[trigger] old(work)@[i] < graph.nodes@.len(),
        ensures
            final(states)@.len() == graph.nodes@.len(),
            forall|i: int|
                0 <= i < final(work)@.len() ==> #[trigger] final(work)@[i] < graph.nodes@.len(),
            (Progress { states: state_views(final(states)@), work: final(work)@ })
                == followed_from(
                graph.edges@,
                node,
                state@,
                next@,
                0,
                (Progress { states: state_views(old(states)@), work: old(work)@ }),
            ),
    {
        let ghost start = Progress { states: state_views(states@), work: work@ };
        let n: usize = graph.edges.len();
        let mut i: usize = 0;
        while i < n
            invariant
                i <= n,
                n == graph.edges@.len(),
                graph_ok(*graph),
                states@.len() == graph.nodes@.len(),
                forall|j: int| 0 <= j < work@.len() ==> #[trigger] work@[j] < graph.nodes@.len(),
                followed_from(graph.edges@, node, state@, next@, 0, start) == followed_from(
                    graph.edges@,
                    node,
                    state@,
                    next@,
                    i as int,
                    (Progress { states: state_views(states@), work: work@ }),
                ),
            decreases n - i,
        {
            let edge = graph.edges[i];
            if edge.from == node {
                let ghost before = Progress { states: state_views(states@), work: work@ };
                let flow = match edge.kind {
                    EdgeKind::Exceptional => state,
                    _ => next,
                };
                let to: usize = edge.to;
                let changed;
                let existing = copy_state(&states[to]);
                match existing {
                    Some(mut current) => {
                        changed = merge_callable_states(&mut current, flow);
                        states.set(to, Some(current));
                    },
                    None => {
                        states.set(to, Some(flow.copy()));
                        changed = true;
                    },
                }
                if changed {
                    work.push_back(to);
                }
                proof {
                    let after = Progress { states: state_views(states@), work: work@ };
                    let goal = reached(before, to, passed(edge, state@, next@));
                    assert(after.states =~= goal.states);
                    assert(after.work =~= goal.work);
                }
            }
            i += 1;
        }
    }

    /// The values of locals at each node of a graph; nothing when they do not settle within
    /// the steps that are allowed.
    pub fn callable_states(
        &self,
        graph: &FlowGraph,
        initial: State,
        results: &Returns,
        mutations: &Mutations,
    ) -> (r: Option<Vec<Option<State>>>)
        requires
            graph_ok(*graph),
        ensures
            match (r, flow_states(self@, *graph, results@, mutations@, initial@)) {
                (Some(states), Some(goal)) => state_views(states@) == goal && states@.len()
                    == graph.nodes@.len(),
                (None, None) => true,
                _ => false,
            },
    {
        let ghost goal = flow_states(self@, *graph, results@, mutations@, initial@);
        let n: usize = graph.nodes.len();
        let mut states: Vec<Option<State>> = Vec::new();
        let mut i: usize = 0;
        while i < n
            invariant
                i <= n,
                states@.len() == i,
                forall|j: int| 0 <= j < i ==> #[trigger] states@[j] is None,
            decreases n - i,
        {
            states.push(None);
            i += 1;
        }
        let ghost first = started(*graph, initial@);
        states.set(graph.entry, Some(initial));
        let mut work: VecDeque<usize> = VecDeque::new();
        work.push_back(graph.entry);
        assert(state_views(states@) =~= first.states);
        assert(work@ =~= first.work);
        let mut steps: u64 = MAX_STEPS;
        while steps > 0
            invariant
                graph_ok(*graph),
                states@.len() == graph.nodes@.len(),
                forall|j: int| 0 <= j < work@.len() ==> #[trigger] work@[j] < graph.nodes@.len(),
                goal == flow_states(self@, *graph, results@, mutations@, initial@),
                goal == settled_states(
                    self@,
                    *graph,
                    results@,
                    mutations@,
                    (Progress { states: state_views(states@), work: work@ }),
                    steps as nat,
                ),
            decreases steps,
        {
            let ghost before = Progress { states: state_views(states@), work: work@ };
            let node: usize = match work.pop_front() {
                Some(node) => node,
                None => {
                    return Some(states);
                },
            };
            assert(work@ =~= before.work.drop_first());
            let current = copy_state(&states[node]);
            match current {
                Some(state) => {
                    let next = self.transfer_callable_state(
                        &graph.nodes[node],
                        &state,
                        results,
                        mutations,
                    );
                    self.follow_edges(graph, node, &state, &next, &mut states, &mut work);
                },
                None => {},
            }
            steps -= 1;
        }
        if work.len() == 0 {
            Some(states)
        } else {
            None
        }
    }
}

/// A state covers a flow, local by local.
pub open spec fn state_covers(
    state: Map<LocalRef, Callable>,
    flow: Map<LocalRef, Callable>,
) -> bool {
    forall|k: LocalRef| #[trigger] flow.contains_key(k) ==> covers(held(state, k), flow[k])
}

/// Each known state lists the same locals.
pub open spec fn lists(
    states: Seq<Option<Map<LocalRef, Callable>>>,
    locals: Set<LocalRef>,
) -> bool {
    forall|i: int|
        0 <= i < states.len() ==> (#[trigger] states[i] matches Some(s) ==> s.dom() == locals)
}

/// No node of a graph changes which locals a state lists.
pub open spec fn keeps_locals(
    scope: ScopeView,
    graph: FlowGraph,
    results: Map<Seq<char>, Callable>,
    mutations: Map<Seq<char>, Seq<Option<Callable>>>,
    locals: Set<LocalRef>,
) -> bool {
    forall|i: int, s: Map<LocalRef, Callable>|
        0 <= i < graph.nodes@.len() && s.dom() == locals ==> #[trigger] transferred(
            scope,
            graph.nodes@[i],
            s,
            results,
            mutations,
        ).dom() == locals
}

/// The state at the end of an edge covers what flows along it.
pub open spec fn edge_settled(
    edge: FlowEdge,
    states: Seq<Option<Map<LocalRef, Callable>>>,
    state: Map<LocalRef, Callable>,
    next: Map<LocalRef, Callable>,
) -> bool {
    states[edge.to as int] matches Some(target) && state_covers(
        target,
        passed(edge, state, next),
    )
}

/// Everything that leaves a node has arrived.
pub open spec fn node_settled(
    scope: ScopeView,
    graph: FlowGraph,
    results: Map<Seq<char>, Callable>,
    mutations: Map<Seq<char>, Seq<Option<Callable>>>,
    states: Seq<Option<Map<LocalRef, Callable>>>,
    node: int,
) -> bool {
    states[node] matches Some(state) ==> forall|e: int|
        0 <= e < graph.edges@.len() && (#[trigger] graph.edges@[e]).from == node ==> edge_settled(
            graph.edges@[e],
            states,
            state,
            transferred(scope, graph.nodes@[node], state, results, mutations),
        )
}

/// One list of states holds at least what another holds.
pub open spec fn states_grow(
    before: Seq<Option<Map<LocalRef, Callable>>>,
    after: Seq<Option<Map<LocalRef, Callable>>>,
) -> bool {
    &&& before.len() == after.len()
    &&& forall|i: int|
        0 <= i < before.len() ==> (#[trigger] before[i] matches Some(s) ==> (
        after[i] matches Some(t) && t.dom() == s.dom() && state_covers(t, s)))
}

proof fn lemma_state_covers_transitive(
    a: Map<LocalRef, Callable>,
    b: Map<LocalRef, Callable>,
    c: Map<LocalRef, Callable>,
)
    requires
        state_covers(a, b),
        state_covers(b, c),
        c.dom().subset_of(b.dom()),
    ensures
        state_covers(a, c),
{
    assert forall|k: LocalRef| #[trigger] c.contains_key(k) implies covers(held(a, k), c[k]) by {
        assert(b.contains_key(k));
        covers_is_transitive(held(a, k), b[k], c[k]);
    }
}

proof fn lemma_state_covers_itself(a: Map<LocalRef, Callable>)
    ensures
        state_covers(a, a),
{
    assert forall|k: LocalRef| #[trigger] a.contains_key(k) implies covers(held(a, k), a[k]) by {
        covers_is_reflexive(a[k]);
    }
}

/// What happens when a flow reaches a node.
proof fn lemma_reached(
    progress: Progress,
    to: usize,
    flow: Map<LocalRef, Callable>,
    locals: Set<LocalRef>,
)
    requires
        to < progress.states.len(),
        lists(progress.states, locals),
        flow.dom() == locals,
    ensures
        lists(reached(progress, to, flow).states, locals),
        states_grow(progress.states, reached(progress, to, flow).states),
        reached(progress, to, flow).states[to as int] matches Some(t) && state_covers(t, flow),
        forall|i: int|
            0 <= i < progress.states.len() && i != to ==> #[trigger] reached(
                progress,
                to,
                flow,
            ).states[i] == progress.states[i],
        reached(progress, to, flow).states[to as int] != progress.states[to as int]
            ==> reached(progress, to, flow).work.contains(to),
        forall|x: usize|
            progress.work.contains(x) ==> #[trigger] reached(progress, to, flow).work.contains(x),
        forall|x: usize|
            #[trigger] reached(progress, to, flow).work.contains(x) ==> progress.work.contains(x)
                || x == to,
{
    let after = reached(progress, to, flow);
    lemma_state_covers_itself(flow);
    assert forall|i: int| 0 <= i < progress.states.len() implies (
    #[trigger] progress.states[i] matches Some(s) ==> state_covers(s, s)) by {
        match progress.states[i] {
            Some(s) => {
                lemma_state_covers_itself(s);
            },
            None => {},
        }
    }
    assert forall|x: usize|
        #![trigger progress.work.push(to).contains(x)]
        #![trigger progress.work.contains(x)]
        progress.work.push(to).contains(x) <==> progress.work.contains(x) || x == to by {
        let w = progress.work.push(to);
        if x == to {
            assert(w[progress.work.len() as int] == x);
        }
        if progress.work.contains(x) {
            let j = choose|j: int| 0 <= j < progress.work.len() && progress.work[j] == x;
            assert(w[j] == x);
        }
        if w.contains(x) && x != to {
            let j = choose|j: int| 0 <= j < w.len() && w[j] == x;
            assert(progress.work[j] == x);
        }
    }
    assert(progress.work.push(to).contains(to));
    match progress.states[to as int] {
        Some(existing) => {
            let merged = merged_states(existing, flow);
            assert(merged.dom() =~= locals);
            assert forall|k: LocalRef| #[trigger] flow.contains_key(k) implies covers(
                held(merged, k),
                flow[k],
            ) && covers(held(merged, k), existing[k]) by {
                join_covers_both(held(existing, k), flow[k]);
            }
            assert(state_covers(merged, flow));
            assert(state_covers(merged, existing)) by {
                assert forall|k: LocalRef| #[trigger] existing.contains_key(k) implies covers(
                    held(merged, k),
                    existing[k],
                ) by {
                    assert(flow.contains_key(k));
                }
            }
            if !adds_any(existing, flow) {
                assert forall|k: LocalRef| merged.contains_key(k) implies merged[k]
                    == existing[k] by {
                    assert(!adds(existing, flow, k));
                    assert(flow.contains_key(k));
                    assert(existing.contains_key(k));
                }
                assert(merged =~= existing);
            }
        },
        None => {},
    }
}

/// What a settled edge loses nothing by: states that grow.
proof fn lemma_settled_grows(
    edge: FlowEdge,
    before: Seq<Option<Map<LocalRef, Callable>>>,
    after: Seq<Option<Map<LocalRef, Callable>>>,
    state: Map<LocalRef, Callable>,
    next: Map<LocalRef, Callable>,
    locals: Set<LocalRef>,
)
    requires
        edge.to < before.len(),
        lists(before, locals),
        states_grow(before, after),
        edge_settled(edge, before, state, next),
        state.dom() == locals,
        next.dom() == locals,
    ensures
        edge_settled(edge, after, state, next),
{
    let b = before[edge.to as int]->Some_0;
    let a = after[edge.to as int]->Some_0;
    lemma_state_covers_transitive(a, b, passed(edge, state, next));
}

/// Every node but those still to be followed is settled; of `node`, the edges before `upto`.
spec fn nearly_settled(
    scope: ScopeView,
    graph: FlowGraph,
    results: Map<Seq<char>, Callable>,
    mutations: Map<Seq<char>, Seq<Option<Callable>>>,
    progress: Progress,
    node: usize,
    state: Map<LocalRef, Callable>,
    upto: int,
) -> bool {
    &&& forall|m: int|
        #![trigger progress.states[m]]
        0 <= m < graph.nodes@.len() && m != node && !progress.work.contains(m as usize)
            ==> node_settled(scope, graph, results, mutations, progress.states, m)
    &&& !progress.work.contains(node) ==> {
        &&& progress.states[node as int] == Some(state)
        &&& forall|e: int|
            0 <= e < upto && (#[trigger] graph.edges@[e]).from == node ==> edge_settled(
                graph.edges@[e],
                progress.states,
                state,
                transferred(scope, graph.nodes@[node as int], state, results, mutations),
            )
    }
}

proof fn lemma_followed(
    scope: ScopeView,
    graph: FlowGraph,
    results: Map<Seq<char>, Callable>,
    mutations: Map<Seq<char>, Seq<Option<Callable>>>,
    progress: Progress,
    node: usize,
    state: Map<LocalRef, Callable>,
    i: int,
    locals: Set<LocalRef>,
)
    requires
        graph_ok(graph),
        node < graph.nodes@.len(),
        0 <= i <= graph.edges@.len(),
        progress.states.len() == graph.nodes@.len(),
        lists(progress.states, locals),
        state.dom() == locals,
        keeps_locals(scope, graph, results, mutations, locals),
        nearly_settled(scope, graph, results, mutations, progress, node, state, i),
        forall|j: int| 0 <= j < progress.work.len() ==> #[trigger] progress.work[j] < graph.nodes@.len(),
    ensures
        ({
            let next = transferred(scope, graph.nodes@[node as int], state, results, mutations);
            let after = followed_from(graph.edges@, node, state, next, i, progress);
            &&& after.states.len() == graph.nodes@.len()
            &&& lists(after.states, locals)
            &&& states_grow(progress.states, after.states)
            &&& nearly_settled(
                scope,
                graph,
                results,
                mutations,
                after,
                node,
                state,
                graph.edges@.len() as int,
            )
            &&& forall|j: int|
                0 <= j < after.work.len() ==> #[trigger] after.work[j] < graph.nodes@.len()
        }),
    decreases graph.edges@.len() - i,
{
    let next = transferred(scope, graph.nodes@[node as int], state, results, mutations);
    if i < graph.edges@.len() {
        let edge = graph.edges@[i];
        if edge.from == node {
            let flow = passed(edge, state, next);
            let middle = reached(progress, edge.to, flow);
            lemma_reached(progress, edge.to, flow, locals);
            assert forall|j: int| 0 <= j < middle.work.len() implies #[trigger] middle.work[j]
                < graph.nodes@.len() by {
                if j < progress.work.len() {
                    assert(middle.work[j] == progress.work[j]);
                }
            }
            assert forall|m: int|
                #![trigger middle.states[m]]
                0 <= m < graph.nodes@.len() && m != node && !middle.work.contains(
                    m as usize,
                ) implies node_settled(scope, graph, results, mutations, middle.states, m) by {
                assert(middle.states[m] == progress.states[m]);
                match middle.states[m] {
                    Some(s) => {
                        let moved = transferred(scope, graph.nodes@[m], s, results, mutations);
                        assert forall|e: int|
                            0 <= e < graph.edges@.len() && (#[trigger] graph.edges@[e]).from
                                == m implies edge_settled(
                            graph.edges@[e],
                            middle.states,
                            s,
                            moved,
                        ) by {
                            lemma_settled_grows(
                                graph.edges@[e],
                                progress.states,
                                middle.states,
                                s,
                                moved,
                                locals,
                            );
                        }
                    },
                    None => {},
                }
            }
            if !middle.work.contains(node) {
                assert(middle.states[node as int] == progress.states[node as int]);
                assert forall|e: int|
                    0 <= e < i + 1 && (#[trigger] graph.edges@[e]).from
                        == node implies edge_settled(
                    graph.edges@[e],
                    middle.states,
                    state,
                    next,
                ) by {
                    if e < i {
                        lemma_settled_grows(
                            graph.edges@[e],
                            progress.states,
                            middle.states,
                            state,
                            next,
                            locals,
                        );
                    }
                }
            }
            lemma_followed(
                scope,
                graph,
                results,
                mutations,
                middle,
                node,
                state,
                i + 1,
                locals,
            );
            let after = followed_from(graph.edges@, node, state, next, i, progress);
            lemma_grow_transitive(progress.states, middle.states, after.states);
        } else {
            lemma_followed(
                scope,
                graph,
                results,
                mutations,
                progress,
                node,
                state,
                i + 1,
                locals,
            );
        }
    } else {
        assert forall|m: int| 0 <= m < progress.states.len() implies (
        #[trigger] progress.states[m] matches Some(s) ==> state_covers(s, s)) by {
            match progress.states[m] {
                Some(s) => {
                    lemma_state_covers_itself(s);
                },
                None => {},
            }
        }
    }
}

proof fn lemma_grow_transitive(
    a: Seq<Option<Map<LocalRef, Callable>>>,
    b: Seq<Option<Map<LocalRef, Callable>>>,
    c: Seq<Option<Map<LocalRef, Callable>>>,
)
    requires
        states_grow(a, b),
        states_grow(b, c),
    ensures
        states_grow(a, c),
{
    assert forall|i: int| 0 <= i < a.len() implies (#[trigger] a[i] matches Some(s) ==> (
    c[i] matches Some(t) && t.dom() == s.dom() && state_covers(t, s))) by {
        match a[i] {
            Some(s) => {
                let m = b[i]->Some_0;
                let t = c[i]->Some_0;
                lemma_state_covers_transitive(t, m, s);
            },
            None => {},
        }
    }
}

/// When the states have settled, each edge has been followed: the entry covers the values that
/// the callable starts with, and the end of every edge that leaves a reached node covers what
/// flows along it.
pub proof fn states_are_settled(
    scope: ScopeView,
    graph: FlowGraph,
    results: Map<Seq<char>, Callable>,
    mutations: Map<Seq<char>, Seq<Option<Callable>>>,
    initial: Map<LocalRef, Callable>,
)
    requires
        graph_ok(graph),
        keeps_locals(scope, graph, results, mutations, initial.dom()),
    ensures
        flow_states(scope, graph, results, mutations, initial) matches Some(states) ==> {
            &&& states.len() == graph.nodes@.len()
            &&& states[graph.entry as int] matches Some(s) && state_covers(s, initial)
            &&& forall|node: int|
                0 <= node < graph.nodes@.len() ==> #[trigger] node_settled(
                    scope,
                    graph,
                    results,
                    mutations,
                    states,
                    node,
                )
        },
{
    let first = started(graph, initial);
    lemma_state_covers_itself(initial);
    assert(first.work[0] == graph.entry);
    assert(first.work.contains(graph.entry));
    lemma_settled_states(
        scope,
        graph,
        results,
        mutations,
        first,
        MAX_STEPS as nat,
        initial,
    );
}

proof fn lemma_settled_states(
    scope: ScopeView,
    graph: FlowGraph,
    results: Map<Seq<char>, Callable>,
    mutations: Map<Seq<char>, Seq<Option<Callable>>>,
    progress: Progress,
    steps: nat,
    initial: Map<LocalRef, Callable>,
)
    requires
        graph_ok(graph),
        keeps_locals(scope, graph, results, mutations, initial.dom()),
        progress.states.len() == graph.nodes@.len(),
        lists(progress.states, initial.dom()),
        forall|j: int| 0 <= j < progress.work.len() ==> #[trigger] progress.work[j] < graph.nodes@.len(),
        progress.states[graph.entry as int] matches Some(s) && state_covers(s, initial),
        forall|m: int|
            0 <= m < graph.nodes@.len() && !progress.work.contains(m as usize)
                ==> #[trigger] node_settled(scope, graph, results, mutations, progress.states, m),
    ensures
        settled_states(scope, graph, results, mutations, progress, steps) matches Some(states) ==> {
            &&& states.len() == graph.nodes@.len()
            &&& states[graph.entry as int] matches Some(s) && state_covers(s, initial)
            &&& forall|node: int|
                0 <= node < graph.nodes@.len() ==> #[trigger] node_settled(
                    scope,
                    graph,
                    results,
                    mutations,
                    states,
                    node,
                )
        },
    decreases steps,
{
    let locals = initial.dom();
    assert(graph.nodes.len() == graph.nodes@.len());
    if progress.work.len() == 0 {
        assert forall|node: int| 0 <= node < graph.nodes@.len() implies #[trigger] node_settled(
            scope,
            graph,
            results,
            mutations,
            progress.states,
            node,
        ) by {
            assert(!progress.work.contains(node as usize));
        }
    } else if steps > 0 {
        let node = progress.work[0];
        let rest = Progress { work: progress.work.drop_first(), ..progress };
        let after = stepped(scope, graph, results, mutations, progress);
        assert forall|j: int| 0 <= j < rest.work.len() implies #[trigger] rest.work[j]
            < graph.nodes@.len() by {
            assert(rest.work[j] == progress.work[j + 1]);
        }
        assert forall|m: int|
            #![trigger rest.states[m]]
            0 <= m < graph.nodes@.len() && m != node && !rest.work.contains(
                m as usize,
            ) implies node_settled(scope, graph, results, mutations, rest.states, m) by {
            if progress.work.contains(m as usize) {
                let j = choose|j: int| 0 <= j < progress.work.len() && progress.work[j] == m as usize;
                assert(j > 0);
                assert(rest.work[j - 1] == m as usize);
            }
        }
        match progress.states[node as int] {
            Some(state) => {
                let next = transferred(
                    scope,
                    graph.nodes@[node as int],
                    state,
                    results,
                    mutations,
                );
                lemma_followed(
                    scope,
                    graph,
                    results,
                    mutations,
                    rest,
                    node,
                    state,
                    0,
                    locals,
                );
                let entry = progress.states[graph.entry as int]->Some_0;
                let grown = after.states[graph.entry as int]->Some_0;
                lemma_state_covers_transitive(grown, entry, initial);
            },
            None => {},
        }
        assert forall|m: int|
            0 <= m < graph.nodes@.len() && !after.work.contains(
                m as usize,
            ) implies #[trigger] node_settled(
            scope,
            graph,
            results,
            mutations,
            after.states,
            m,
        ) by {
            let s = after.states[m];
        }
        lemma_settled_states(
            scope,
            graph,
            results,
            mutations,
            after,
            (steps - 1) as nat,
            initial,
        );
    }
}

} // verus!
