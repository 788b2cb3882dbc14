//! What flows between callables arrives: through returns, arguments and captures.
use crate::callable::join_optional;
use crate::effects::called_value;
use crate::flow::{enclosing_node, FlowGraph, FlowKind, FlowNode};
use crate::ids::LocalRef;
use crate::lattice::{
    covers, covers_is_reflexive, covers_is_transitive, join, join_covers_both, not_reached,
    Callable,
};
use crate::program::{
    analyzed, analyzed_from, blank, calls_from, captured, captures_of, creations_from,
    definition_states, passed_values, return_value, returned_from, scope_in, snapshot_from,
    state_at, statement_value, targets_from, with_arguments, with_call_at, with_definition,
    with_outcome, AnalysisView, ProgramView, SummaryView,
};
use crate::scope::{direct_target, node_under, ScopeView};
use crate::syntax::{part, SyntaxNode};
use crate::tables::{ascending, lemma_ascending};
use vstd::prelude::*;

verus! {

proof fn lemma_optional_join(current: Option<Callable>, incoming: Callable)
    ensures
        covers(join_optional(current, incoming), incoming),
        current matches Some(held) ==> covers(join_optional(current, incoming), held),
{
    match current {
        Some(held) => {
            join_covers_both(held, incoming);
        },
        None => {
            covers_is_reflexive(incoming);
        },
    }
}

proof fn lemma_returned_from(
    scope: ScopeView,
    nodes: Seq<FlowNode>,
    states: Seq<Option<Map<LocalRef, Callable>>>,
    results: Map<Seq<char>, Callable>,
    i: int,
    acc: Option<Callable>,
)
    requires
        0 <= i,
    ensures
        ({
            let end = returned_from(scope, nodes, states, results, i, acc);
            &&& acc matches Some(held) ==> (end matches Some(value) && covers(value, held))
            &&& forall|k: int|
                i <= k < nodes.len() && (#[trigger] nodes[k]).kind is Return ==> (
                states[k] matches Some(state) ==> (end matches Some(value) && covers(
                    value,
                    statement_value(scope, nodes[k], state, results),
                )))
        }),
    decreases nodes.len() - i,
{
    if i < nodes.len() {
        let next = match (nodes[i].kind, states[i]) {
            (FlowKind::Return, Some(state)) => {
                let value = statement_value(scope, nodes[i], state, results);
                lemma_optional_join(acc, value);
                Some(join_optional(acc, value))
            },
            _ => acc,
        };
        lemma_returned_from(scope, nodes, states, results, i + 1, next);
        let end = returned_from(scope, nodes, states, results, i, acc);
        match (end, next) {
            (Some(last), Some(middle)) => {
                match acc {
                    Some(held) => {
                        covers_is_reflexive(held);
                        covers_is_transitive(last, middle, held);
                    },
                    None => {},
                }
                match (nodes[i].kind, states[i]) {
                    (FlowKind::Return, Some(state)) => {
                        covers_is_transitive(
                            last,
                            middle,
                            statement_value(scope, nodes[i], state, results),
                        );
                    },
                    _ => {},
                }
            },
            _ => {},
        }
    } else {
        match acc {
            Some(held) => {
                covers_is_reflexive(held);
            },
            None => {},
        }
    }
}

/// What a callable returns covers what each of its return statements that is reached returns.
pub proof fn returns_arrive(
    scope: ScopeView,
    graph: FlowGraph,
    states: Seq<Option<Map<LocalRef, Callable>>>,
    results: Map<Seq<char>, Callable>,
    k: int,
)
    requires
        0 <= k < graph.nodes@.len(),
        graph.nodes@[k].kind is Return,
    ensures
        states[k] matches Some(state) ==> covers(
            return_value(scope, graph, states, results),
            statement_value(scope, graph.nodes@[k], state, results),
        ),
{
    lemma_returned_from(scope, graph.nodes@, states, results, 0, None);
    assert(graph.nodes@[k].kind is Return);
}

/// The slots hold at least what others hold.
pub open spec fn slots_cover(after: Seq<Option<Callable>>, before: Seq<Option<Callable>>) -> bool {
    &&& after.len() == before.len()
    &&& forall|k: int|
        0 <= k < before.len() ==> (#[trigger] before[k] matches Some(value) ==> (
        after[k] matches Some(more) && covers(more, value)))
}

/// The slots cover the arguments at the same positions.
pub open spec fn slots_take(slots: Seq<Option<Callable>>, arguments: Seq<Callable>) -> bool {
    forall|k: int|
        0 <= k < slots.len() && k < arguments.len() ==> (#[trigger] slots[k] matches Some(value)
            && covers(value, arguments[k]))
}

/// The parameters hold at least what others hold.
pub open spec fn parameters_cover(
    after: Map<Seq<char>, Seq<Option<Callable>>>,
    before: Map<Seq<char>, Seq<Option<Callable>>>,
) -> bool {
    &&& after.dom() == before.dom()
    &&& forall|t: Seq<char>| #[trigger]
        before.contains_key(t) ==> slots_cover(after[t], before[t])
}

proof fn lemma_slots_cover_themselves(slots: Seq<Option<Callable>>)
    ensures
        slots_cover(slots, slots),
{
    assert forall|k: int| 0 <= k < slots.len() implies (#[trigger] slots[k] matches Some(value) ==> (
    slots[k] matches Some(more) && covers(more, value))) by {
        match slots[k] {
            Some(value) => {
                covers_is_reflexive(value);
            },
            None => {},
        }
    }
}

proof fn lemma_slots_cover_through(
    a: Seq<Option<Callable>>,
    b: Seq<Option<Callable>>,
    c: Seq<Option<Callable>>,
)
    requires
        slots_cover(a, b),
        slots_cover(b, c),
    ensures
        slots_cover(a, c),
{
    assert forall|k: int| 0 <= k < c.len() implies (#[trigger] c[k] matches Some(value) ==> (
    a[k] matches Some(more) && covers(more, value))) by {
        match (a[k], b[k], c[k]) {
            (Some(x), Some(y), Some(z)) => {
                covers_is_transitive(x, y, z);
            },
            _ => {},
        }
    }
}

proof fn lemma_slots_take_more(
    a: Seq<Option<Callable>>,
    b: Seq<Option<Callable>>,
    arguments: Seq<Callable>,
)
    requires
        slots_cover(a, b),
        slots_take(b, arguments),
    ensures
        slots_take(a, arguments),
{
    assert forall|k: int| 0 <= k < a.len() && k < arguments.len() implies (
    #[trigger] a[k] matches Some(value) && covers(value, arguments[k])) by {
        assert(b[k] is Some);
        covers_is_transitive(a[k]->Some_0, b[k]->Some_0, arguments[k]);
    }
}

proof fn lemma_parameters_cover_through(
    a: Map<Seq<char>, Seq<Option<Callable>>>,
    b: Map<Seq<char>, Seq<Option<Callable>>>,
    c: Map<Seq<char>, Seq<Option<Callable>>>,
)
    requires
        parameters_cover(a, b),
        parameters_cover(b, c),
    ensures
        parameters_cover(a, c),
{
    assert forall|t: Seq<char>| #[trigger] c.contains_key(t) implies slots_cover(a[t], c[t]) by {
        assert(b.contains_key(t));
        lemma_slots_cover_through(a[t], b[t], c[t]);
    }
}

proof fn lemma_parameters_cover_themselves(tables: Map<Seq<char>, Seq<Option<Callable>>>)
    ensures
        parameters_cover(tables, tables),
{
    assert forall|t: Seq<char>| #[trigger] tables.contains_key(t) implies slots_cover(
        tables[t],
        tables[t],
    ) by {
        lemma_slots_cover_themselves(tables[t]);
    }
}

proof fn lemma_with_arguments(slots: Seq<Option<Callable>>, arguments: Seq<Callable>)
    ensures
        slots_cover(with_arguments(slots, arguments), slots),
        slots_take(with_arguments(slots, arguments), arguments),
{
    let after = with_arguments(slots, arguments);
    assert forall|k: int| 0 <= k < slots.len() implies (#[trigger] slots[k] matches Some(value) ==> (
    after[k] matches Some(more) && covers(more, value))) by {
        if k < arguments.len() {
            lemma_optional_join(slots[k], arguments[k]);
        } else {
            match slots[k] {
                Some(value) => {
                    covers_is_reflexive(value);
                },
                None => {},
            }
        }
    }
    assert forall|k: int| 0 <= k < after.len() && k < arguments.len() implies (
    #[trigger] after[k] matches Some(value) && covers(value, arguments[k])) by {
        lemma_optional_join(slots[k], arguments[k]);
    }
}

proof fn lemma_targets_from(
    targets: Seq<Seq<char>>,
    arguments: Seq<Callable>,
    i: int,
    acc: Map<Seq<char>, Seq<Option<Callable>>>,
)
    requires
        0 <= i,
    ensures
        ({
            let after = targets_from(targets, arguments, i, acc);
            &&& parameters_cover(after, acc)
            &&& forall|j: int|
                i <= j < targets.len() && acc.contains_key(#[trigger] targets[j]) ==> slots_take(
                    after[targets[j]],
                    arguments,
                )
        }),
    decreases targets.len() - i,
{
    lemma_parameters_cover_themselves(acc);
    if i < targets.len() {
        let next = if acc.contains_key(targets[i]) {
            acc.insert(targets[i], with_arguments(acc[targets[i]], arguments))
        } else {
            acc
        };
        if acc.contains_key(targets[i]) {
            lemma_with_arguments(acc[targets[i]], arguments);
        }
        assert(next.dom() =~= acc.dom());
        assert(parameters_cover(next, acc)) by {
            assert forall|t: Seq<char>| #[trigger] acc.contains_key(t) implies slots_cover(
                next[t],
                acc[t],
            ) by {
                lemma_slots_cover_themselves(acc[t]);
            }
        }
        lemma_targets_from(targets, arguments, i + 1, next);
        let after = targets_from(targets, arguments, i, acc);
        lemma_parameters_cover_through(after, next, acc);
        assert forall|j: int|
            i <= j < targets.len() && acc.contains_key(#[trigger] targets[j]) implies slots_take(
            after[targets[j]],
            arguments,
        ) by {
            if j == i {
                assert(next.contains_key(targets[i]));
                lemma_slots_take_more(after[targets[i]], next[targets[i]], arguments);
            } else {
                assert(next.contains_key(targets[j]));
            }
        }
    }
}

/// The call at position `i` is made, in the state `state`, by the callable in which it stands.
pub open spec fn is_made(
    program: ProgramView,
    i: int,
    states: Seq<Option<Map<LocalRef, Callable>>>,
    node: SyntaxNode,
    callee: SyntaxNode,
    state: Map<LocalRef, Callable>,
) -> bool {
    let call = program.calls[i];
    &&& 0 <= i < program.calls.len()
    &&& program.definitions.contains_key(call.caller)
    &&& node_under(scope_in(program, call.file), call.span) == Some(node)
    &&& part(node, "callee"@) == Some(callee)
    &&& enclosing_node(program.definitions[call.caller].graph, call.span) matches Some(at)
        && states[at] == Some(state)
}

/// The values that a call passes.
pub open spec fn made_values(
    program: ProgramView,
    i: int,
    node: SyntaxNode,
    callee: SyntaxNode,
    state: Map<LocalRef, Callable>,
    results: Map<Seq<char>, Callable>,
) -> Seq<Callable> {
    let scope = scope_in(program, program.calls[i].file);
    passed_values(program, scope, node, state, results, direct_target(scope, callee))
}

/// What a call may call.
pub open spec fn made_targets(
    program: ProgramView,
    i: int,
    callee: SyntaxNode,
    state: Map<LocalRef, Callable>,
    results: Map<Seq<char>, Callable>,
) -> Set<Seq<char>> {
    called_value(scope_in(program, program.calls[i].file), callee, state, results).targets
}

proof fn lemma_with_call_at(
    program: ProgramView,
    id: Seq<char>,
    states: Seq<Option<Map<LocalRef, Callable>>>,
    results: Map<Seq<char>, Callable>,
    i: int,
    acc: AnalysisView,
)
    ensures
        parameters_cover(
            with_call_at(program, id, states, results, i, acc).summary.parameters,
            acc.summary.parameters,
        ),
{
    lemma_parameters_cover_themselves(acc.summary.parameters);
    let call = program.calls[i];
    let scope = scope_in(program, call.file);
    match (
        enclosing_node(program.definitions[id].graph, call.span),
        node_under(scope, call.span),
    ) {
        (Some(at), Some(node)) => match (part(node, "callee"@), states[at]) {
            (Some(callee), Some(state)) => {
                let called = called_value(scope, callee, state, results);
                lemma_targets_from(
                    ascending::<String>(called.targets),
                    passed_values(
                        program,
                        scope,
                        node,
                        state,
                        results,
                        direct_target(scope, callee),
                    ),
                    0,
                    acc.summary.parameters,
                );
            },
            _ => {},
        },
        _ => {},
    }
}

proof fn lemma_calls_from(
    program: ProgramView,
    id: Seq<char>,
    states: Seq<Option<Map<LocalRef, Callable>>>,
    results: Map<Seq<char>, Callable>,
    i: int,
    acc: AnalysisView,
)
    requires
        0 <= i,
    ensures
        parameters_cover(
            calls_from(program, id, states, results, i, acc).summary.parameters,
            acc.summary.parameters,
        ),
    decreases program.calls.len() - i,
{
    if i < program.calls.len() {
        let next = with_call_at(program, id, states, results, i, acc);
        lemma_with_call_at(program, id, states, results, i, acc);
        lemma_calls_from(program, id, states, results, i + 1, next);
        lemma_parameters_cover_through(
            calls_from(program, id, states, results, i, acc).summary.parameters,
            next.summary.parameters,
            acc.summary.parameters,
        );
    } else {
        lemma_parameters_cover_themselves(acc.summary.parameters);
    }
}

proof fn lemma_call_arrives(
    program: ProgramView,
    id: Seq<char>,
    states: Seq<Option<Map<LocalRef, Callable>>>,
    results: Map<Seq<char>, Callable>,
    from: int,
    acc: AnalysisView,
    i: int,
    node: SyntaxNode,
    callee: SyntaxNode,
    state: Map<LocalRef, Callable>,
    target: Seq<char>,
)
    requires
        0 <= from <= i,
        is_made(program, i, states, node, callee, state),
        program.calls[i].caller == id,
        made_targets(program, i, callee, state, results).finite(),
        made_targets(program, i, callee, state, results).contains(target),
        acc.summary.parameters.contains_key(target),
    ensures
        slots_take(
            calls_from(program, id, states, results, from, acc).summary.parameters[target],
            made_values(program, i, node, callee, state, results),
        ),
    decreases i - from,
{
    let next = with_call_at(program, id, states, results, from, acc);
    lemma_with_call_at(program, id, states, results, from, acc);
    assert(next.summary.parameters.dom().contains(target));
    let end = calls_from(program, id, states, results, from, acc);
    assert(end == calls_from(program, id, states, results, from + 1, next));
    if from < i {
        lemma_call_arrives(
            program,
            id,
            states,
            results,
            from + 1,
            next,
            i,
            node,
            callee,
            state,
            target,
        );
    } else {
        let called = made_targets(program, i, callee, state, results);
        let targets = ascending::<String>(called);
        let values = made_values(program, i, node, callee, state, results);
        lemma_ascending::<String>(called);
        assert(targets.to_set().contains(target));
        let j = choose|j: int| 0 <= j < targets.len() && targets[j] == target;
        lemma_targets_from(targets, values, 0, acc.summary.parameters);
        assert(acc.summary.parameters.contains_key(targets[j]));
        assert(next.summary.parameters == targets_from(targets, values, 0, acc.summary.parameters));
        lemma_calls_from(program, id, states, results, from + 1, next);
        lemma_slots_take_more(
            end.summary.parameters[target],
            next.summary.parameters[target],
            values,
        );
    }
}

proof fn lemma_analyzed_from(
    program: ProgramView,
    summary: SummaryView,
    external: bool,
    ids: Seq<Seq<char>>,
    i: int,
    acc: AnalysisView,
)
    requires
        0 <= i,
    ensures
        analyzed_from(program, summary, external, ids, i, acc) matches Some(found)
            ==> parameters_cover(found.summary.parameters, acc.summary.parameters),
    decreases ids.len() - i,
{
    lemma_parameters_cover_themselves(acc.summary.parameters);
    if i < ids.len() {
        match definition_states(program, ids[i], summary, external) {
            Some(states) => {
                let middle = with_outcome(program, ids[i], summary, external, states, acc);
                let next = with_definition(program, ids[i], summary, external, states, acc);
                lemma_calls_from(program, ids[i], states, summary.results, 0, middle);
                lemma_analyzed_from(program, summary, external, ids, i + 1, next);
                match analyzed_from(program, summary, external, ids, i, acc) {
                    Some(found) => {
                        lemma_parameters_cover_through(
                            found.summary.parameters,
                            next.summary.parameters,
                            acc.summary.parameters,
                        );
                    },
                    None => {},
                }
            },
            None => {},
        }
    }
}

proof fn lemma_arguments_arrive(
    program: ProgramView,
    summary: SummaryView,
    external: bool,
    ids: Seq<Seq<char>>,
    from: int,
    acc: AnalysisView,
    at: int,
    i: int,
    node: SyntaxNode,
    callee: SyntaxNode,
    states: Seq<Option<Map<LocalRef, Callable>>>,
    state: Map<LocalRef, Callable>,
    target: Seq<char>,
)
    requires
        0 <= from <= at < ids.len(),
        ids[at] == program.calls[i].caller,
        definition_states(program, ids[at], summary, external) == Some(states),
        is_made(program, i, states, node, callee, state),
        made_targets(program, i, callee, state, summary.results).finite(),
        made_targets(program, i, callee, state, summary.results).contains(target),
        acc.summary.parameters.contains_key(target),
    ensures
        analyzed_from(program, summary, external, ids, from, acc) matches Some(found)
            ==> found.summary.parameters.contains_key(target) && slots_take(
            found.summary.parameters[target],
            made_values(program, i, node, callee, state, summary.results),
        ),
    decreases at - from,
{
    match definition_states(program, ids[from], summary, external) {
        Some(local) => {
            let middle = with_outcome(program, ids[from], summary, external, local, acc);
            let next = with_definition(program, ids[from], summary, external, local, acc);
            lemma_calls_from(program, ids[from], local, summary.results, 0, middle);
            assert(next.summary.parameters.dom().contains(target));
            if from < at {
                lemma_arguments_arrive(
                    program,
                    summary,
                    external,
                    ids,
                    from + 1,
                    next,
                    at,
                    i,
                    node,
                    callee,
                    states,
                    state,
                    target,
                );
            } else {
                lemma_call_arrives(
                    program,
                    ids[from],
                    states,
                    summary.results,
                    0,
                    middle,
                    i,
                    node,
                    callee,
                    state,
                    target,
                );
                lemma_analyzed_from(program, summary, external, ids, from + 1, next);
                match analyzed_from(program, summary, external, ids, from, acc) {
                    Some(found) => {
                        assert(next.summary.parameters.contains_key(target));
                        assert(found.summary.parameters.dom().contains(target));
                        lemma_slots_take_more(
                            found.summary.parameters[target],
                            next.summary.parameters[target],
                            made_values(program, i, node, callee, state, summary.results),
                        );
                    },
                    None => {},
                }
            }
        },
        None => {},
    }
}

/// A pass keeps one slot for each parameter of each callable.
pub proof fn slots_match_parameters(
    program: ProgramView,
    summary: SummaryView,
    external: bool,
    id: Seq<char>,
)
    requires
        program.definitions.contains_key(id),
    ensures
        analyzed(program, summary, external) matches Some(found)
            ==> found.summary.parameters.contains_key(id) && found.summary.parameters[id].len()
            == program.definitions[id].parameters.len(),
{
    let ids = ascending::<String>(program.definitions.dom());
    lemma_analyzed_from(program, summary, external, ids, 0, blank(program));
    match analyzed(program, summary, external) {
        Some(found) => {
            assert(blank(program).summary.parameters.contains_key(id));
            assert(found.summary.parameters.dom().contains(id));
        },
        None => {},
    }
}

/// What a call that is reached passes arrives: after a pass, the parameters of each callable that
/// the call may call cover the values that it passes.
pub proof fn arguments_arrive(
    program: ProgramView,
    summary: SummaryView,
    external: bool,
    i: int,
    node: SyntaxNode,
    callee: SyntaxNode,
    states: Seq<Option<Map<LocalRef, Callable>>>,
    state: Map<LocalRef, Callable>,
    target: Seq<char>,
)
    requires
        program.definitions.dom().finite(),
        definition_states(program, program.calls[i].caller, summary, external) == Some(states),
        is_made(program, i, states, node, callee, state),
        made_targets(program, i, callee, state, summary.results).finite(),
        made_targets(program, i, callee, state, summary.results).contains(target),
        program.definitions.contains_key(target),
    ensures
        analyzed(program, summary, external) matches Some(found)
            ==> found.summary.parameters.contains_key(target) && slots_take(
            found.summary.parameters[target],
            made_values(program, i, node, callee, state, summary.results),
        ),
{
    let ids = ascending::<String>(program.definitions.dom());
    lemma_ascending::<String>(program.definitions.dom());
    assert(ids.to_set().contains(program.calls[i].caller));
    let at = choose|at: int| 0 <= at < ids.len() && ids[at] == program.calls[i].caller;
    lemma_arguments_arrive(
        program,
        summary,
        external,
        ids,
        0,
        blank(program),
        at,
        i,
        node,
        callee,
        states,
        state,
        target,
    );
}

/// The values hold at least what others hold.
pub open spec fn values_cover(
    after: Map<LocalRef, Callable>,
    before: Map<LocalRef, Callable>,
) -> bool {
    forall|l: LocalRef| #[trigger]
        before.contains_key(l) ==> after.contains_key(l) && covers(after[l], before[l])
}

/// The captures hold at least what others hold.
pub open spec fn captures_cover(
    after: Map<Seq<char>, Map<LocalRef, Callable>>,
    before: Map<Seq<char>, Map<LocalRef, Callable>>,
) -> bool {
    forall|lambda: Seq<char>| #[trigger]
        before.contains_key(lambda) ==> after.contains_key(lambda) && values_cover(
            after[lambda],
            before[lambda],
        )
}

proof fn lemma_values_cover_themselves(values: Map<LocalRef, Callable>)
    ensures
        values_cover(values, values),
{
    assert forall|l: LocalRef| #[trigger] values.contains_key(l) implies covers(
        values[l],
        values[l],
    ) by {
        covers_is_reflexive(values[l]);
    }
}

proof fn lemma_values_cover_through(
    a: Map<LocalRef, Callable>,
    b: Map<LocalRef, Callable>,
    c: Map<LocalRef, Callable>,
)
    requires
        values_cover(a, b),
        values_cover(b, c),
    ensures
        values_cover(a, c),
{
    assert forall|l: LocalRef| #[trigger] c.contains_key(l) implies a.contains_key(l) && covers(
        a[l],
        c[l],
    ) by {
        assert(b.contains_key(l));
        covers_is_transitive(a[l], b[l], c[l]);
    }
}

proof fn lemma_captures_cover_themselves(captures: Map<Seq<char>, Map<LocalRef, Callable>>)
    ensures
        captures_cover(captures, captures),
{
    assert forall|lambda: Seq<char>| #[trigger] captures.contains_key(lambda) implies values_cover(
        captures[lambda],
        captures[lambda],
    ) by {
        lemma_values_cover_themselves(captures[lambda]);
    }
}

proof fn lemma_captures_cover_through(
    a: Map<Seq<char>, Map<LocalRef, Callable>>,
    b: Map<Seq<char>, Map<LocalRef, Callable>>,
    c: Map<Seq<char>, Map<LocalRef, Callable>>,
)
    requires
        captures_cover(a, b),
        captures_cover(b, c),
    ensures
        captures_cover(a, c),
{
    assert forall|lambda: Seq<char>| #[trigger] c.contains_key(lambda) implies a.contains_key(
        lambda,
    ) && values_cover(a[lambda], c[lambda]) by {
        assert(b.contains_key(lambda));
        lemma_values_cover_through(a[lambda], b[lambda], c[lambda]);
    }
}

proof fn lemma_snapshot_from(
    locals: Seq<LocalRef>,
    state: Map<LocalRef, Callable>,
    external: bool,
    i: int,
    acc: Map<LocalRef, Callable>,
)
    requires
        0 <= i,
    ensures
        ({
            let after = snapshot_from(locals, state, external, i, acc);
            &&& values_cover(after, acc)
            &&& forall|k: int|
                i <= k < locals.len() ==> after.contains_key(#[trigger] locals[k]) && covers(
                    after[locals[k]],
                    captured(state, locals[k], external),
                )
        }),
    decreases locals.len() - i,
{
    lemma_values_cover_themselves(acc);
    if i < locals.len() {
        let current = if acc.contains_key(locals[i]) {
            acc[locals[i]]
        } else {
            not_reached()
        };
        let value = captured(state, locals[i], external);
        join_covers_both(current, value);
        let next = acc.insert(locals[i], join(current, value));
        assert(values_cover(next, acc)) by {
            assert forall|l: LocalRef| #[trigger] acc.contains_key(l) implies next.contains_key(l)
                && covers(next[l], acc[l]) by {
                covers_is_reflexive(acc[l]);
            }
        }
        lemma_snapshot_from(locals, state, external, i + 1, next);
        let after = snapshot_from(locals, state, external, i, acc);
        lemma_values_cover_through(after, next, acc);
        assert(next.contains_key(locals[i]));
        covers_is_transitive(after[locals[i]], next[locals[i]], value);
    }
}

/// The captures of a lambda cover what a state holds.
pub open spec fn take_state(
    captures: Map<Seq<char>, Map<LocalRef, Callable>>,
    lambda: Seq<char>,
    locals: Seq<LocalRef>,
    state: Map<LocalRef, Callable>,
    external: bool,
) -> bool {
    forall|k: int|
        0 <= k < locals.len() ==> captures.contains_key(lambda) && captures[lambda].contains_key(
            #[trigger] locals[k],
        ) && covers(captures[lambda][locals[k]], captured(state, locals[k], external))
}

proof fn lemma_take_more(
    a: Map<Seq<char>, Map<LocalRef, Callable>>,
    b: Map<Seq<char>, Map<LocalRef, Callable>>,
    lambda: Seq<char>,
    locals: Seq<LocalRef>,
    state: Map<LocalRef, Callable>,
    external: bool,
)
    requires
        captures_cover(a, b),
        take_state(b, lambda, locals, state, external),
    ensures
        take_state(a, lambda, locals, state, external),
{
    assert forall|k: int| 0 <= k < locals.len() implies a.contains_key(lambda)
        && a[lambda].contains_key(#[trigger] locals[k]) && covers(
        a[lambda][locals[k]],
        captured(state, locals[k], external),
    ) by {
        assert(b[lambda].contains_key(locals[k]));
        assert(b.contains_key(lambda));
        covers_is_transitive(
            a[lambda][locals[k]],
            b[lambda][locals[k]],
            captured(state, locals[k], external),
        );
    }
}

/// The captures with those of the lambda that is created at position `i`.
spec fn with_creation(
    program: ProgramView,
    id: Seq<char>,
    states: Seq<Option<Map<LocalRef, Callable>>>,
    external: bool,
    i: int,
    acc: Map<Seq<char>, Map<LocalRef, Callable>>,
) -> Map<Seq<char>, Map<LocalRef, Callable>> {
    let creation = program.creations[i];
    let lambda = creation.lambda;
    if creation.owner == id && program.definitions.contains_key(lambda) {
        let locals = program.definitions[lambda].captures;
        match state_at(program.definitions[id].graph, states, creation.span) {
            Some(state) => if locals.len() > 0 {
                acc.insert(
                    lambda,
                    snapshot_from(locals, state, external, 0, captures_of(acc, lambda)),
                )
            } else {
                acc
            },
            None => acc,
        }
    } else {
        acc
    }
}

proof fn lemma_with_creation(
    program: ProgramView,
    id: Seq<char>,
    states: Seq<Option<Map<LocalRef, Callable>>>,
    external: bool,
    i: int,
    acc: Map<Seq<char>, Map<LocalRef, Callable>>,
)
    ensures
        ({
            let next = with_creation(program, id, states, external, i, acc);
            let creation = program.creations[i];
            &&& captures_cover(next, acc)
            &&& creation.owner == id && program.definitions.contains_key(creation.lambda) ==> (
            state_at(program.definitions[id].graph, states, creation.span) matches Some(state)
                ==> take_state(
                next,
                creation.lambda,
                program.definitions[creation.lambda].captures,
                state,
                external,
            ))
        }),
{
    lemma_captures_cover_themselves(acc);
    let creation = program.creations[i];
    let lambda = creation.lambda;
    if creation.owner == id && program.definitions.contains_key(lambda) {
        let locals = program.definitions[lambda].captures;
        match state_at(program.definitions[id].graph, states, creation.span) {
            Some(state) => {
                let held = captures_of(acc, lambda);
                lemma_snapshot_from(locals, state, external, 0, held);
                let next = with_creation(program, id, states, external, i, acc);
                assert forall|l: Seq<char>| #[trigger] acc.contains_key(l) implies next.contains_key(
                    l,
                ) && values_cover(next[l], acc[l]) by {
                    lemma_values_cover_themselves(acc[l]);
                }
            },
            None => {},
        }
    }
}

proof fn lemma_creations_from(
    program: ProgramView,
    id: Seq<char>,
    states: Seq<Option<Map<LocalRef, Callable>>>,
    external: bool,
    i: int,
    acc: Map<Seq<char>, Map<LocalRef, Callable>>,
)
    requires
        0 <= i,
    ensures
        ({
            let after = creations_from(program, id, states, external, i, acc);
            &&& captures_cover(after, acc)
            &&& forall|k: int|
                i <= k < program.creations.len() && (#[trigger] program.creations[k]).owner == id
                    && program.definitions.contains_key(program.creations[k].lambda) ==> (state_at(
                    program.definitions[id].graph,
                    states,
                    program.creations[k].span,
                ) matches Some(state) ==> take_state(
                    after,
                    program.creations[k].lambda,
                    program.definitions[program.creations[k].lambda].captures,
                    state,
                    external,
                ))
        }),
    decreases program.creations.len() - i,
{
    if i < program.creations.len() {
        let next = with_creation(program, id, states, external, i, acc);
        let after = creations_from(program, id, states, external, i, acc);
        lemma_with_creation(program, id, states, external, i, acc);
        lemma_creations_from(program, id, states, external, i + 1, next);
        assert(after == creations_from(program, id, states, external, i + 1, next));
        lemma_captures_cover_through(after, next, acc);
        let creation = program.creations[i];
        match state_at(program.definitions[id].graph, states, creation.span) {
            Some(state) => {
                if creation.owner == id && program.definitions.contains_key(creation.lambda) {
                    lemma_take_more(
                        after,
                        next,
                        creation.lambda,
                        program.definitions[creation.lambda].captures,
                        state,
                        external,
                    );
                }
            },
            None => {},
        }
    } else {
        lemma_captures_cover_themselves(acc);
    }
}

proof fn lemma_calls_keep_captures(
    program: ProgramView,
    id: Seq<char>,
    states: Seq<Option<Map<LocalRef, Callable>>>,
    results: Map<Seq<char>, Callable>,
    i: int,
    acc: AnalysisView,
)
    ensures
        calls_from(program, id, states, results, i, acc).summary.captures == acc.summary.captures,
    decreases program.calls.len() - i,
{
    if 0 <= i < program.calls.len() {
        let next = with_call_at(program, id, states, results, i, acc);
        lemma_calls_keep_captures(program, id, states, results, i + 1, next);
    }
}

proof fn lemma_captures_arrive(
    program: ProgramView,
    summary: SummaryView,
    external: bool,
    ids: Seq<Seq<char>>,
    from: int,
    acc: AnalysisView,
    at: int,
    k: int,
)
    requires
        0 <= from,
        0 <= k < program.creations.len(),
        program.definitions.contains_key(program.creations[k].lambda),
    ensures
        analyzed_from(program, summary, external, ids, from, acc) matches Some(found) ==> {
            &&& captures_cover(found.summary.captures, acc.summary.captures)
            &&& from <= at < ids.len() && ids[at] == program.creations[k].owner ==> (
            definition_states(program, ids[at], summary, external) matches Some(states) && (
            state_at(
                program.definitions[ids[at]].graph,
                states,
                program.creations[k].span,
            ) matches Some(state) ==> take_state(
                found.summary.captures,
                program.creations[k].lambda,
                program.definitions[program.creations[k].lambda].captures,
                state,
                external,
            )))
        },
    decreases ids.len() - from,
{
    lemma_captures_cover_themselves(acc.summary.captures);
    if from < ids.len() {
        let id = ids[from];
        match definition_states(program, id, summary, external) {
            Some(states) => {
                let middle = with_outcome(program, id, summary, external, states, acc);
                let next = with_definition(program, id, summary, external, states, acc);
                lemma_creations_from(program, id, states, external, 0, acc.summary.captures);
                lemma_calls_keep_captures(program, id, states, summary.results, 0, middle);
                lemma_captures_arrive(program, summary, external, ids, from + 1, next, at, k);
                match analyzed_from(program, summary, external, ids, from, acc) {
                    Some(found) => {
                        lemma_captures_cover_through(
                            found.summary.captures,
                            next.summary.captures,
                            acc.summary.captures,
                        );
                        if at == from && id == program.creations[k].owner {
                            match state_at(
                                program.definitions[id].graph,
                                states,
                                program.creations[k].span,
                            ) {
                                Some(state) => {
                                    lemma_take_more(
                                        found.summary.captures,
                                        next.summary.captures,
                                        program.creations[k].lambda,
                                        program.definitions[program.creations[k].lambda].captures,
                                        state,
                                        external,
                                    );
                                },
                                None => {},
                            }
                        }
                    },
                    None => {},
                }
            },
            None => {},
        }
    }
}

/// A lambda captures what the locals hold where it is created: after a pass, its captures cover
/// the state of its owner there.
pub proof fn captures_arrive(
    program: ProgramView,
    summary: SummaryView,
    external: bool,
    k: int,
)
    requires
        program.definitions.dom().finite(),
        0 <= k < program.creations.len(),
        program.definitions.contains_key(program.creations[k].owner),
        program.definitions.contains_key(program.creations[k].lambda),
    ensures
        analyzed(program, summary, external) matches Some(found) ==> (definition_states(
            program,
            program.creations[k].owner,
            summary,
            external,
        ) matches Some(states) && (state_at(
            program.definitions[program.creations[k].owner].graph,
            states,
            program.creations[k].span,
        ) matches Some(state) ==> take_state(
            found.summary.captures,
            program.creations[k].lambda,
            program.definitions[program.creations[k].lambda].captures,
            state,
            external,
        ))),
{
    let ids = ascending::<String>(program.definitions.dom());
    lemma_ascending::<String>(program.definitions.dom());
    assert(ids.to_set().contains(program.creations[k].owner));
    let at = choose|at: int| 0 <= at < ids.len() && ids[at] == program.creations[k].owner;
    lemma_captures_arrive(program, summary, external, ids, 0, blank(program), at, k);
}

} // verus!
