//! Laws of what goes into callables and what comes out of them.
use crate::effects::forgotten_from;
use crate::evaluate::{value_of, MAX_VALUE_DEPTH};
use crate::flow::FlowGraph;
use crate::flows::returns_arrive;
use crate::ids::{LocalRef, Span};
use crate::lattice::{covers, not_reached, plain, unknown, Callable};
use crate::methods::receiver_of;
use crate::program::{
    argument_values_from, captured, captures_from, captures_of, entry, entry_state, outputs_of,
    parameter_value, parameters_from, passed_values, return_value, returned_from, DefinitionView,
    ProgramView, SummaryView,
};
use crate::scope::{node_under, ScopeView};
use crate::steps::{arguments_are_in_order, lemma_forgotten, passes};
use crate::syntax::{part, SyntaxNode};
use vstd::prelude::*;

verus! {

/// What comes from outside the project: anything where it may be called from there, and nothing
/// otherwise.
pub open spec fn is_from_outside(v: Callable, external: bool) -> bool {
    if external {
        v == unknown()
    } else {
        v == not_reached()
    }
}

/// A parameter starts with what arrives for it, and with what comes from outside where nothing
/// arrives.
pub open spec fn starts_with_argument(
    v: Callable,
    id: Seq<char>,
    i: int,
    summary: SummaryView,
    external: bool,
) -> bool {
    if summary.parameters.contains_key(id) && i < summary.parameters[id].len() && (
    summary.parameters[id][i] is Some) {
        Some(v) == summary.parameters[id][i]
    } else {
        is_from_outside(v, external)
    }
}

/// A capture starts with what was captured.
pub open spec fn starts_with_capture(
    v: Callable,
    id: Seq<char>,
    x: LocalRef,
    summary: SummaryView,
    external: bool,
) -> bool {
    if summary.captures.contains_key(id) && summary.captures[id].contains_key(x) {
        v == summary.captures[id][x]
    } else {
        is_from_outside(v, external)
    }
}

proof fn lemma_parameters(
    parameters: Seq<LocalRef>,
    id: Seq<char>,
    summary: SummaryView,
    external: bool,
    i: int,
    state: Map<LocalRef, Callable>,
    x: LocalRef,
)
    requires
        0 <= i <= parameters.len(),
        parameters.no_duplicates(),
    ensures
        ({
            let values = entry(summary.parameters, id);
            let after = parameters_from(parameters, values, external, i, state);
            if exists|k: int| i <= k < parameters.len() && #[trigger] parameters[k] == x {
                after.contains_key(x) && exists|k: int|
                    i <= k < parameters.len() && #[trigger] parameters[k] == x
                        && starts_with_argument(after[x], id, k, summary, external)
            } else {
                after.contains_key(x) == state.contains_key(x) && after[x] == state[x]
            }
        }),
    decreases parameters.len() - i,
{
    if i < parameters.len() {
        let values = entry(summary.parameters, id);
        let next = state.insert(
            parameters[i],
            parameter_value(values, i, external),
        );
        lemma_parameters(parameters, id, summary, external, i + 1, next, x);
        let after = parameters_from(parameters, values, external, i, state);
        if exists|k: int| i <= k < parameters.len() && #[trigger] parameters[k] == x {
            let k = choose|k: int| i <= k < parameters.len() && #[trigger] parameters[k] == x;
            if k > i {
                assert(i + 1 <= k < parameters.len() && parameters[k] == x);
                let j = choose|j: int|
                    i + 1 <= j < parameters.len() && #[trigger] parameters[j] == x
                        && starts_with_argument(after[x], id, j, summary, external);
                assert(i <= j < parameters.len() && parameters[j] == x);
            } else {
                assert(parameters[i] == x);
                assert(starts_with_argument(after[x], id, i, summary, external));
            }
        }
    }
}

proof fn lemma_captures(
    captures: Seq<LocalRef>,
    id: Seq<char>,
    summary: SummaryView,
    external: bool,
    i: int,
    state: Map<LocalRef, Callable>,
    x: LocalRef,
)
    requires
        0 <= i <= captures.len(),
    ensures
        ({
            let values = captures_of(summary.captures, id);
            let after = captures_from(captures, values, external, i, state);
            if exists|k: int| i <= k < captures.len() && #[trigger] captures[k] == x {
                after.contains_key(x) && starts_with_capture(after[x], id, x, summary, external)
            } else {
                after.contains_key(x) == state.contains_key(x) && after[x] == state[x]
            }
        }),
    decreases captures.len() - i,
{
    if i < captures.len() {
        let values = captures_of(summary.captures, id);
        let next = state.insert(
            captures[i],
            captured(values, captures[i], external),
        );
        lemma_captures(captures, id, summary, external, i + 1, next, x);
        if exists|k: int| i <= k < captures.len() && #[trigger] captures[k] == x {
            let k = choose|k: int| i <= k < captures.len() && #[trigger] captures[k] == x;
            if k > i {
                assert(i + 1 <= k < captures.len() && captures[k] == x);
            }
        }
    }
}

/// A callable starts with its captures as they were captured, its parameters as they were passed,
/// and nothing known of its other locals.
pub proof fn callables_start_with_what_arrives(
    definition: DefinitionView,
    id: Seq<char>,
    summary: SummaryView,
    external: bool,
    x: LocalRef,
)
    requires
        definition.parameters.no_duplicates(),
    ensures
        ({
            let after = entry_state(definition, id, summary, external);
            if definition.captures.contains(x) {
                after.contains_key(x) && starts_with_capture(after[x], id, x, summary, external)
            } else if definition.parameters.contains(x) {
                after.contains_key(x) && exists|k: int|
                    0 <= k < definition.parameters.len() && #[trigger] definition.parameters[k]
                        == x && starts_with_argument(after[x], id, k, summary, external)
            } else if definition.graph.locals@.contains(x) {
                after.contains_key(x) && after[x] == unknown()
            } else {
                !after.contains_key(x)
            }
        }),
{
    let first = forgotten_from(Map::empty(), definition.graph.locals@, 0);
    let values = entry(summary.parameters, id);
    let second = parameters_from(definition.parameters, values, external, 0, first);
    lemma_forgotten(Map::empty(), definition.graph.locals@, 0, x);
    lemma_parameters(definition.parameters, id, summary, external, 0, first, x);
    lemma_captures(definition.captures, id, summary, external, 0, second, x);
}

/// What a callable leaves in its parameters is what those that it mutates hold at its exit; in
/// the others it leaves nothing, and neither does a callable that never comes to its exit.
pub proof fn callables_leave_what_they_mutate(
    definition: DefinitionView,
    exit: Option<Map<LocalRef, Callable>>,
    i: int,
)
    requires
        definition.mutable_parameters.len() == definition.parameters.len(),
        0 <= i < definition.parameters.len(),
    ensures
        outputs_of(definition, exit).len() == definition.parameters.len(),
        match exit {
            Some(state) => {
                &&& outputs_of(definition, exit)[i] is Some <==> definition.mutable_parameters[i]
                &&& definition.mutable_parameters[i] && state.contains_key(
                    definition.parameters[i],
                ) ==> outputs_of(definition, exit)[i] == Some(state[definition.parameters[i]])
                &&& definition.mutable_parameters[i] && !state.contains_key(
                    definition.parameters[i],
                ) ==> outputs_of(definition, exit)[i] == Some(unknown())
            },
            None => outputs_of(definition, exit)[i] is None,
        },
{
}

/// What a callable returns covers the value of the expression in each of its return statements
/// that is reached.
pub proof fn returned_expressions_arrive(
    scope: ScopeView,
    graph: FlowGraph,
    states: Seq<Option<Map<LocalRef, Callable>>>,
    results: Map<Seq<char>, Callable>,
    k: int,
    span: Span,
    statement: SyntaxNode,
    value: SyntaxNode,
    state: Map<LocalRef, Callable>,
)
    requires
        0 <= k < graph.nodes@.len(),
        graph.nodes@[k].kind is Return,
        graph.nodes@[k].span == Some(span),
        node_under(scope, span) == Some(statement),
        part(statement, "body"@) == Some(value),
        states[k] == Some(state),
    ensures
        covers(
            return_value(scope, graph, states, results),
            value_of(scope, value, state, results, MAX_VALUE_DEPTH as nat),
        ),
{
    returns_arrive(scope, graph, states, results, k);
}

proof fn lemma_no_returns(
    scope: ScopeView,
    graph: FlowGraph,
    states: Seq<Option<Map<LocalRef, Callable>>>,
    results: Map<Seq<char>, Callable>,
    i: int,
)
    requires
        0 <= i,
        forall|k: int|
            0 <= k < graph.nodes@.len() ==> !((#[trigger] graph.nodes@[k]).kind is Return)
                || states[k] is None,
    ensures
        returned_from(scope, graph.nodes@, states, results, i, None) is None,
    decreases graph.nodes@.len() - i,
{
    if i < graph.nodes@.len() {
        assert(!(graph.nodes@[i].kind is Return) || states[i] is None);
        lemma_no_returns(scope, graph, states, results, i + 1);
    }
}

/// A callable in which no return statement is reached returns nothing that can be called.
pub proof fn nothing_is_returned_without_return(
    scope: ScopeView,
    graph: FlowGraph,
    states: Seq<Option<Map<LocalRef, Callable>>>,
    results: Map<Seq<char>, Callable>,
)
    requires
        forall|k: int|
            0 <= k < graph.nodes@.len() ==> !((#[trigger] graph.nodes@[k]).kind is Return)
                || states[k] is None,
    ensures
        return_value(scope, graph, states, results) == plain(),
{
    lemma_no_returns(scope, graph, states, results, 0);
}

proof fn lemma_argument_values(
    scope: ScopeView,
    arguments: Seq<SyntaxNode>,
    state: Map<LocalRef, Callable>,
    results: Map<Seq<char>, Callable>,
    i: int,
    acc: Seq<Callable>,
)
    requires
        0 <= i <= arguments.len(),
    ensures
        ({
            let after = argument_values_from(scope, arguments, state, results, i, acc);
            &&& after.len() == acc.len() + arguments.len() - i
            &&& forall|k: int| 0 <= k < acc.len() ==> #[trigger] after[k] == acc[k]
            &&& forall|k: int|
                acc.len() <= k < after.len() ==> #[trigger] after[k] == value_of(
                    scope,
                    arguments[k - acc.len() + i],
                    state,
                    results,
                    MAX_VALUE_DEPTH as nat,
                )
        }),
    decreases arguments.len() - i,
{
    if i < arguments.len() {
        let v = value_of(scope, arguments[i], state, results, MAX_VALUE_DEPTH as nat);
        lemma_argument_values(scope, arguments, state, results, i + 1, acc.push(v));
        let after = argument_values_from(scope, arguments, state, results, i, acc);
        assert forall|k: int| acc.len() <= k < after.len() implies #[trigger] after[k] == value_of(
            scope,
            arguments[k - acc.len() + i],
            state,
            results,
            MAX_VALUE_DEPTH as nat,
        ) by {
            if k == acc.len() {
                assert(after[k] == acc.push(v)[k]);
            }
        }
        assert forall|k: int| 0 <= k < acc.len() implies #[trigger] after[k] == acc[k] by {
            assert(after[k] == acc.push(v)[k]);
        }
    }
}

/// A direct call of an instance method behind a dot passes what stands in front of the dot first.
pub open spec fn passes_receiver(
    program: ProgramView,
    call: SyntaxNode,
    direct: Option<Seq<char>>,
) -> bool {
    &&& receiver_of(call) is Some
    &&& direct matches Some(id) && program.definitions.contains_key(id) && (
    program.definitions[id].symbol matches Some(symbol) && program.names.instance_methods.contains(
        symbol,
    ))
}

/// A call passes the values of its arguments in their order, behind its receiver where it passes
/// that.
pub proof fn calls_pass_their_arguments(
    program: ProgramView,
    scope: ScopeView,
    call: SyntaxNode,
    values: Seq<SyntaxNode>,
    state: Map<LocalRef, Callable>,
    results: Map<Seq<char>, Callable>,
    direct: Option<Seq<char>>,
)
    requires
        passes(call, values),
    ensures
        ({
            let depth = MAX_VALUE_DEPTH as nat;
            let passed = passed_values(program, scope, call, state, results, direct);
            if passes_receiver(program, call, direct) {
                &&& passed.len() == values.len() + 1
                &&& passed[0] == value_of(
                    scope,
                    receiver_of(call)->Some_0,
                    state,
                    results,
                    depth,
                )
                &&& forall|k: int|
                    0 <= k < values.len() ==> passed[k + 1] == value_of(
                        scope,
                        #[trigger] values[k],
                        state,
                        results,
                        depth,
                    )
            } else {
                &&& passed.len() == values.len()
                &&& forall|k: int|
                    0 <= k < values.len() ==> passed[k] == value_of(
                        scope,
                        #[trigger] values[k],
                        state,
                        results,
                        depth,
                    )
            }
        }),
{
    arguments_are_in_order(call, values);
    let depth = MAX_VALUE_DEPTH as nat;
    if passes_receiver(program, call, direct) {
        let first = value_of(scope, receiver_of(call)->Some_0, state, results, depth);
        let front: Seq<Callable> = Seq::empty().push(first);
        lemma_argument_values(scope, values, state, results, 0, front);
        let passed = argument_values_from(scope, values, state, results, 0, front);
        assert(passed[0] == front[0]);
        assert forall|k: int| 0 <= k < values.len() implies passed[k + 1] == value_of(
            scope,
            #[trigger] values[k],
            state,
            results,
            depth,
        ) by {
            assert(passed[k + 1] == value_of(scope, values[k + 1 - 1], state, results, depth));
        }
    } else {
        lemma_argument_values(scope, values, state, results, 0, Seq::empty());
        let passed = argument_values_from(scope, values, state, results, 0, Seq::empty());
        assert forall|k: int| 0 <= k < values.len() implies passed[k] == value_of(
            scope,
            #[trigger] values[k],
            state,
            results,
            depth,
        ) by {
            assert(passed[k] == value_of(scope, values[k - 0 + 0], state, results, depth));
        }
    }
}

} // verus!
