//! Laws of programs of which the analysis has reached a fixed point: every value arrives where it
//! flows to.
use crate::effects::forgotten_from;
use crate::evaluate::{held, returned};
use crate::flows::{
    arguments_arrive, captures_arrive, is_made, made_targets, made_values, returns_arrive,
    slots_match_parameters, slots_take,
};
use crate::ids::LocalRef;
use crate::lattice::{covers, Callable};
use crate::program::{
    analyzed, analyzed_from, blank, calls_from, captured, captures_from, captures_of,
    definition_states, entry, entry_state, outputs_of, parameter_value, parameters_from,
    return_value, scope_in, state_at, statement_value, with_call_at, with_definition, with_outcome,
    AnalysisView, ProgramView, SummaryView,
};
use crate::syntax::SyntaxNode;
use crate::tables::{ascending, lemma_ascending};
use vstd::prelude::*;

verus! {

proof fn lemma_calls_keep_outcome(
    program: ProgramView,
    id: Seq<char>,
    states: Seq<Option<Map<LocalRef, Callable>>>,
    results: Map<Seq<char>, Callable>,
    i: int,
    acc: AnalysisView,
)
    ensures
        calls_from(program, id, states, results, i, acc).summary.results == acc.summary.results,
        calls_from(program, id, states, results, i, acc).summary.mutations
            == acc.summary.mutations,
    decreases program.calls.len() - i,
{
    if 0 <= i < program.calls.len() {
        let next = with_call_at(program, id, states, results, i, acc);
        lemma_calls_keep_outcome(program, id, states, results, i + 1, next);
    }
}

/// A pass holds the outcome of a callable.
pub open spec fn has_outcome(
    program: ProgramView,
    summary: SummaryView,
    external: bool,
    id: Seq<char>,
    found: AnalysisView,
) -> bool {
    let definition = program.definitions[id];
    definition_states(program, id, summary, external) matches Some(states) && {
        &&& found.summary.results.contains_key(id)
        &&& found.summary.results[id] == return_value(
            scope_in(program, definition.file),
            definition.graph,
            states,
            summary.results,
        )
        &&& found.summary.mutations.contains_key(id)
        &&& found.summary.mutations[id] == outputs_of(
            definition,
            states[definition.graph.exit as int],
        )
    }
}

proof fn lemma_outcomes(
    program: ProgramView,
    summary: SummaryView,
    external: bool,
    ids: Seq<Seq<char>>,
    from: int,
    acc: AnalysisView,
    at: int,
)
    requires
        0 <= from,
        0 <= at < ids.len(),
        ids.no_duplicates(),
        at < from ==> has_outcome(program, summary, external, ids[at], acc),
    ensures
        analyzed_from(program, summary, external, ids, from, acc) matches Some(found)
            ==> has_outcome(program, summary, external, ids[at], found),
    decreases ids.len() - from,
{
    if from < ids.len() {
        match definition_states(program, ids[from], summary, external) {
            Some(states) => {
                let middle = with_outcome(program, ids[from], summary, external, states, acc);
                let next = with_definition(program, ids[from], summary, external, states, acc);
                lemma_calls_keep_outcome(
                    program,
                    ids[from],
                    states,
                    summary.results,
                    0,
                    middle,
                );
                lemma_outcomes(program, summary, external, ids, from + 1, next, at);
            },
            None => {},
        }
    }
}

/// A pass finds for each callable what its return statements give, and what it leaves in the
/// parameters that it mutates.
pub proof fn pass_finds_outcomes(
    program: ProgramView,
    summary: SummaryView,
    external: bool,
    id: Seq<char>,
)
    requires
        program.definitions.dom().finite(),
        program.definitions.contains_key(id),
    ensures
        analyzed(program, summary, external) matches Some(found) ==> has_outcome(
            program,
            summary,
            external,
            id,
            found,
        ),
{
    let ids = ascending::<String>(program.definitions.dom());
    lemma_ascending::<String>(program.definitions.dom());
    assert(ids.to_set().contains(id));
    let at = choose|at: int| 0 <= at < ids.len() && ids[at] == id;
    lemma_outcomes(program, summary, external, ids, 0, blank(program), at);
}

/// One more pass over the program would find the same.
pub open spec fn is_fixed(program: ProgramView, summary: SummaryView, external: bool) -> bool {
    analyzed(program, summary, external) matches Some(found) && found.summary == summary
}

/// What a call of a callable gives covers what each of its return statements that is reached
/// gives.
pub proof fn fixed_results_cover_returns(
    program: ProgramView,
    summary: SummaryView,
    external: bool,
    id: Seq<char>,
    states: Seq<Option<Map<LocalRef, Callable>>>,
    k: int,
)
    requires
        program.definitions.dom().finite(),
        is_fixed(program, summary, external),
        program.definitions.contains_key(id),
        definition_states(program, id, summary, external) == Some(states),
        0 <= k < program.definitions[id].graph.nodes@.len(),
        program.definitions[id].graph.nodes@[k].kind is Return,
    ensures
        states[k] matches Some(state) ==> covers(
            returned(summary.results, id),
            statement_value(
                scope_in(program, program.definitions[id].file),
                program.definitions[id].graph.nodes@[k],
                state,
                summary.results,
            ),
        ),
{
    pass_finds_outcomes(program, summary, external, id);
    returns_arrive(
        scope_in(program, program.definitions[id].file),
        program.definitions[id].graph,
        states,
        summary.results,
        k,
    );
}

proof fn lemma_captures_keep(
    captures: Seq<LocalRef>,
    values: Map<LocalRef, Callable>,
    external: bool,
    i: int,
    state: Map<LocalRef, Callable>,
    local: LocalRef,
)
    requires
        0 <= i,
        state.contains_key(local),
        forall|k: int| i <= k < captures.len() ==> #[trigger] captures[k] != local,
    ensures
        captures_from(captures, values, external, i, state).contains_key(local),
        captures_from(captures, values, external, i, state)[local] == state[local],
    decreases captures.len() - i,
{
    if i < captures.len() {
        let next = state.insert(captures[i], captured(values, captures[i], external));
        lemma_captures_keep(captures, values, external, i + 1, next, local);
    }
}

proof fn lemma_captures_hold(
    captures: Seq<LocalRef>,
    values: Map<LocalRef, Callable>,
    external: bool,
    i: int,
    state: Map<LocalRef, Callable>,
    local: LocalRef,
)
    requires
        0 <= i,
        state.contains_key(local) && state[local] == captured(values, local, external) || exists|
            k: int,
        |
            i <= k < captures.len() && #[trigger] captures[k] == local,
    ensures
        captures_from(captures, values, external, i, state).contains_key(local),
        captures_from(captures, values, external, i, state)[local] == captured(
            values,
            local,
            external,
        ),
    decreases captures.len() - i,
{
    if i < captures.len() {
        let next = state.insert(captures[i], captured(values, captures[i], external));
        if captures[i] != local && !(state.contains_key(local) && state[local] == captured(
            values,
            local,
            external,
        )) {
            let k = choose|k: int| i <= k < captures.len() && #[trigger] captures[k] == local;
            assert(i + 1 <= k < captures.len() && captures[k] == local);
        }
        lemma_captures_hold(captures, values, external, i + 1, next, local);
    }
}

proof fn lemma_parameters_hold(
    parameters: Seq<LocalRef>,
    values: Option<Seq<Option<Callable>>>,
    external: bool,
    i: int,
    state: Map<LocalRef, Callable>,
    k: int,
)
    requires
        0 <= i,
        0 <= k < parameters.len(),
        forall|j: int| k < j < parameters.len() ==> #[trigger] parameters[j] != parameters[k],
        k < i ==> state.contains_key(parameters[k]) && state[parameters[k]] == parameter_value(
            values,
            k,
            external,
        ),
    ensures
        parameters_from(parameters, values, external, i, state).contains_key(parameters[k]),
        parameters_from(parameters, values, external, i, state)[parameters[k]] == parameter_value(
            values,
            k,
            external,
        ),
    decreases parameters.len() - i,
{
    if i < parameters.len() {
        let next = state.insert(parameters[i], parameter_value(values, i, external));
        lemma_parameters_hold(parameters, values, external, i + 1, next, k);
    }
}

/// A callable starts with the values that calls pass: each parameter covers the argument of every
/// call that is reached and may call it.
pub proof fn fixed_parameters_cover_arguments(
    program: ProgramView,
    summary: SummaryView,
    external: bool,
    i: int,
    node: SyntaxNode,
    callee: SyntaxNode,
    states: Seq<Option<Map<LocalRef, Callable>>>,
    state: Map<LocalRef, Callable>,
    target: Seq<char>,
    k: int,
)
    requires
        program.definitions.dom().finite(),
        is_fixed(program, summary, external),
        definition_states(program, program.calls[i].caller, summary, external) == Some(states),
        is_made(program, i, states, node, callee, state),
        made_targets(program, i, callee, state, summary.results).finite(),
        made_targets(program, i, callee, state, summary.results).contains(target),
        program.definitions.contains_key(target),
        0 <= k < program.definitions[target].parameters.len(),
        k < made_values(program, i, node, callee, state, summary.results).len(),
        forall|j: int|
            k < j < program.definitions[target].parameters.len()
                ==> #[trigger] program.definitions[target].parameters[j]
                != program.definitions[target].parameters[k],
        forall|j: int|
            0 <= j < program.definitions[target].captures.len()
                ==> #[trigger] program.definitions[target].captures[j]
                != program.definitions[target].parameters[k],
    ensures
        covers(
            held(
                entry_state(program.definitions[target], target, summary, external),
                program.definitions[target].parameters[k],
            ),
            made_values(program, i, node, callee, state, summary.results)[k],
        ),
{
    let definition = program.definitions[target];
    let values = made_values(program, i, node, callee, state, summary.results);
    arguments_arrive(program, summary, external, i, node, callee, states, state, target);
    slots_match_parameters(program, summary, external, target);
    let slots = summary.parameters[target];
    assert(slots_take(slots, values));
    assert(slots[k] is Some && covers(slots[k]->Some_0, values[k]));
    let start = forgotten_from(Map::empty(), definition.graph.locals@, 0);
    let slot_values = entry(summary.parameters, target);
    lemma_parameters_hold(definition.parameters, slot_values, external, 0, start, k);
    let middle = parameters_from(definition.parameters, slot_values, external, 0, start);
    lemma_captures_keep(
        definition.captures,
        captures_of(summary.captures, target),
        external,
        0,
        middle,
        definition.parameters[k],
    );
}

/// A lambda starts with the values that it captured: each capture covers what the local holds
/// where the lambda is created.
pub proof fn fixed_captures_cover_creation(
    program: ProgramView,
    summary: SummaryView,
    external: bool,
    k: int,
    states: Seq<Option<Map<LocalRef, Callable>>>,
    state: Map<LocalRef, Callable>,
    j: int,
)
    requires
        program.definitions.dom().finite(),
        is_fixed(program, summary, external),
        0 <= k < program.creations.len(),
        program.definitions.contains_key(program.creations[k].owner),
        program.definitions.contains_key(program.creations[k].lambda),
        definition_states(program, program.creations[k].owner, summary, external) == Some(states),
        state_at(
            program.definitions[program.creations[k].owner].graph,
            states,
            program.creations[k].span,
        ) == Some(state),
        0 <= j < program.definitions[program.creations[k].lambda].captures.len(),
    ensures
        covers(
            held(
                entry_state(
                    program.definitions[program.creations[k].lambda],
                    program.creations[k].lambda,
                    summary,
                    external,
                ),
                program.definitions[program.creations[k].lambda].captures[j],
            ),
            captured(
                state,
                program.definitions[program.creations[k].lambda].captures[j],
                external,
            ),
        ),
{
    let lambda = program.creations[k].lambda;
    let definition = program.definitions[lambda];
    let local = definition.captures[j];
    captures_arrive(program, summary, external, k);
    let values = captures_of(summary.captures, lambda);
    let start = forgotten_from(Map::empty(), definition.graph.locals@, 0);
    let middle = parameters_from(
        definition.parameters,
        entry(summary.parameters, lambda),
        external,
        0,
        start,
    );
    assert(definition.captures[j] == local);
    lemma_captures_hold(definition.captures, values, external, 0, middle, local);
}

} // verus!
