//! Which callables the calls of a whole program may reach.
use crate::callable::{
    join_optional, merge_optional_callable_value, merged_callable_value, CallableValue,
};
use crate::effects::{called_value, forgotten_from, held_value, Mutations, Slots};
use crate::evaluate::{held, value_of, Returns, State, MAX_VALUE_DEPTH};
use crate::facts::{file_from, find_file, FileFacts, SourceText};
use crate::flow::{containing_flow_node, enclosing_node, graph_ok, FlowGraph, FlowKind, FlowNode};
use crate::ids::{LocalRef, Span, SpanKey, SymbolRef};
use crate::lattice::{join, not_reached, only, plain, unknown, Callable};
use crate::methods::{arguments_of, pointees, receiver_of};
use crate::model::{CallSite, CallSiteView};
use crate::position::{location, location_of};
use crate::scope::{direct_target, node_under, text_under, Names, NamesView, Scope, ScopeView};
use crate::states::{flow_states, state_views};
use crate::syntax::{part, SyntaxNode};
use crate::tables::{ascending, is_ascending, lemma_taken, KeyMap, Table};
use crate::text::{opt_view, same_text, views};
use vstd::prelude::*;
use vstd::string::*;

verus! {

broadcast use crate::text::group_views;

/// A callable of which the control flow is known.
#[derive(Debug)]
pub struct Definition<'a> {
    pub file: u32,
    /// The symbol that it declares; a lambda declares none.
    pub symbol: Option<SymbolRef>,
    pub graph: &'a FlowGraph,
    pub parameters: Vec<LocalRef>,
    pub mutable_parameters: Vec<bool>,
    pub captures: Vec<LocalRef>,
}

/// A callable of which the control flow is known.
#[verifier::ext_equal]
pub struct DefinitionView {
    pub file: u32,
    pub symbol: Option<SymbolRef>,
    pub graph: FlowGraph,
    pub parameters: Seq<LocalRef>,
    pub mutable_parameters: Seq<bool>,
    pub captures: Seq<LocalRef>,
}

impl<'a> View for Definition<'a> {
    type V = DefinitionView;

    open spec fn view(&self) -> DefinitionView {
        DefinitionView {
            file: self.file,
            symbol: self.symbol,
            graph: *self.graph,
            parameters: self.parameters@,
            mutable_parameters: self.mutable_parameters@,
            captures: self.captures@,
        }
    }
}

/// A call in the body of a callable.
#[derive(Debug)]
pub struct ProgramCall {
    pub file: u32,
    pub caller: String,
    pub span: Span,
}

/// A call in the body of a callable.
#[verifier::ext_equal]
pub struct ProgramCallView {
    pub file: u32,
    pub caller: Seq<char>,
    pub span: Span,
}

impl View for ProgramCall {
    type V = ProgramCallView;

    open spec fn view(&self) -> ProgramCallView {
        ProgramCallView { file: self.file, caller: self.caller@, span: self.span }
    }
}

/// A place where a lambda is created.
#[derive(Debug)]
pub struct LambdaCreation {
    pub file: u32,
    pub owner: String,
    pub lambda: String,
    pub span: Span,
}

/// A place where a lambda is created.
#[verifier::ext_equal]
pub struct LambdaCreationView {
    pub file: u32,
    pub owner: Seq<char>,
    pub lambda: Seq<char>,
    pub span: Span,
}

impl View for LambdaCreation {
    type V = LambdaCreationView;

    open spec fn view(&self) -> LambdaCreationView {
        LambdaCreationView {
            file: self.file,
            owner: self.owner@,
            lambda: self.lambda@,
            span: self.span,
        }
    }
}

/// A whole program.
#[derive(Debug)]
pub struct Program<'a> {
    pub names: &'a Names,
    pub files: &'a Vec<FileFacts>,
    pub node_ids: &'a Table<SpanKey, String>,
    pub definitions: KeyMap<String, Definition<'a>>,
    pub calls: Vec<ProgramCall>,
    pub creations: Vec<LambdaCreation>,
}

/// A whole program.
#[verifier::ext_equal]
pub struct ProgramView {
    pub names: NamesView,
    pub files: Seq<FileFacts>,
    pub node_ids: Map<SpanKey, Seq<char>>,
    pub definitions: Map<Seq<char>, DefinitionView>,
    pub calls: Seq<ProgramCallView>,
    pub creations: Seq<LambdaCreationView>,
}

/// The definitions of a table.
pub open spec fn definition_views(table: Map<Seq<char>, Definition<'_>>) -> Map<
    Seq<char>,
    DefinitionView,
> {
    table.map_values(|definition: Definition<'_>| definition@)
}

impl<'a> View for Program<'a> {
    type V = ProgramView;

    open spec fn view(&self) -> ProgramView {
        ProgramView {
            names: self.names@,
            files: self.files@,
            node_ids: self.node_ids@,
            definitions: definition_views(self.definitions@),
            calls: views(self.calls@),
            creations: views(self.creations@),
        }
    }
}

/// Each file that a definition or a call lies in is known, and each graph is one.
pub open spec fn program_ok(program: ProgramView) -> bool {
    &&& forall|id: Seq<char>| #[trigger]
        program.definitions.contains_key(id) ==> graph_ok(program.definitions[id].graph)
            && file_from(program.files, program.definitions[id].file, 0) is Some
    &&& forall|i: int|
        0 <= i < program.calls.len() ==> file_from(
            program.files,
            (#[trigger] program.calls[i]).file,
            0,
        ) is Some
}

/// The text of a file of a program.
pub open spec fn text_in(program: ProgramView, file: u32) -> SourceText {
    program.files[file_from(program.files, file, 0)->Some_0].text
}

/// One file of a program.
pub open spec fn scope_in(program: ProgramView, file: u32) -> ScopeView {
    ScopeView {
        file,
        source: text_in(program, file).source@,
        root: text_in(program, file).root,
        names: program.names,
    }
}

/// What is known of the callables of a program.
#[verifier::ext_equal]
pub struct SummaryView {
    /// What each parameter may receive.
    pub parameters: Map<Seq<char>, Seq<Option<Callable>>>,
    /// What each callable may return.
    pub results: Map<Seq<char>, Callable>,
    /// What each callable may leave in the parameters that it mutates.
    pub mutations: Map<Seq<char>, Seq<Option<Callable>>>,
    /// What each lambda may capture.
    pub captures: Map<Seq<char>, Map<LocalRef, Callable>>,
}

/// What one pass over a program finds.
#[verifier::ext_equal]
pub struct AnalysisView {
    pub summary: SummaryView,
    pub call_sites: Seq<CallSiteView>,
}

/// What is known of a value that no part of the program provides. Until the flows inside the
/// program have settled it counts as not reached.
pub open spec fn from_outside(external: bool) -> Callable {
    if external {
        unknown()
    } else {
        not_reached()
    }
}

/// What a parameter may receive.
pub open spec fn parameter_value(
    values: Option<Seq<Option<Callable>>>,
    i: int,
    external: bool,
) -> Callable {
    match values {
        Some(slots) => if 0 <= i < slots.len() {
            match slots[i] {
                Some(value) => value,
                None => from_outside(external),
            }
        } else {
            from_outside(external)
        },
        None => from_outside(external),
    }
}

/// The state with the parameters from position `i` on.
pub open spec fn parameters_from(
    parameters: Seq<LocalRef>,
    values: Option<Seq<Option<Callable>>>,
    external: bool,
    i: int,
    state: Map<LocalRef, Callable>,
) -> Map<LocalRef, Callable>
    decreases parameters.len() - i,
{
    if 0 <= i < parameters.len() {
        parameters_from(
            parameters,
            values,
            external,
            i + 1,
            state.insert(parameters[i], parameter_value(values, i, external)),
        )
    } else {
        state
    }
}

/// What a lambda captures of a local.
pub open spec fn captured(
    values: Map<LocalRef, Callable>,
    local: LocalRef,
    external: bool,
) -> Callable {
    if values.contains_key(local) {
        values[local]
    } else {
        from_outside(external)
    }
}

/// The state with the captures from position `i` on.
pub open spec fn captures_from(
    captures: Seq<LocalRef>,
    values: Map<LocalRef, Callable>,
    external: bool,
    i: int,
    state: Map<LocalRef, Callable>,
) -> Map<LocalRef, Callable>
    decreases captures.len() - i,
{
    if 0 <= i < captures.len() {
        captures_from(
            captures,
            values,
            external,
            i + 1,
            state.insert(captures[i], captured(values, captures[i], external)),
        )
    } else {
        state
    }
}

/// The entry of a map, where it has one.
pub open spec fn entry<A, B>(map: Map<A, B>, key: A) -> Option<B> {
    if map.contains_key(key) {
        Some(map[key])
    } else {
        None
    }
}

/// The captures of a lambda.
pub open spec fn captures_of(
    captures: Map<Seq<char>, Map<LocalRef, Callable>>,
    id: Seq<char>,
) -> Map<LocalRef, Callable> {
    if captures.contains_key(id) {
        captures[id]
    } else {
        Map::empty()
    }
}

/// The values of locals at the start of a callable.
pub open spec fn entry_state(
    definition: DefinitionView,
    id: Seq<char>,
    summary: SummaryView,
    external: bool,
) -> Map<LocalRef, Callable> {
    captures_from(
        definition.captures,
        captures_of(summary.captures, id),
        external,
        0,
        parameters_from(
            definition.parameters,
            entry(summary.parameters, id),
            external,
            0,
            forgotten_from(Map::empty(), definition.graph.locals@, 0),
        ),
    )
}

/// What a callable leaves in the parameters that it mutates.
pub open spec fn outputs_of(
    definition: DefinitionView,
    exit: Option<Map<LocalRef, Callable>>,
) -> Seq<Option<Callable>> {
    Seq::new(
        definition.mutable_parameters.len(),
        |i: int|
            match exit {
                Some(state) => if i < definition.parameters.len()
                    && definition.mutable_parameters[i] {
                    Some(held(state, definition.parameters[i]))
                } else {
                    None
                },
                None => None,
            },
    )
}

/// What a return statement returns.
pub open spec fn statement_value(
    scope: ScopeView,
    node: FlowNode,
    state: Map<LocalRef, Callable>,
    results: Map<Seq<char>, Callable>,
) -> Callable {
    match node.span {
        Some(span) => match node_under(scope, span) {
            Some(statement) => match part(statement, "body"@) {
                Some(value) => value_of(
                    scope,
                    value,
                    state,
                    results,
                    MAX_VALUE_DEPTH as nat,
                ),
                None => plain(),
            },
            None => plain(),
        },
        None => plain(),
    }
}

/// What the return statements from position `i` on return, joined with `acc`.
pub open spec fn returned_from(
    scope: ScopeView,
    nodes: Seq<FlowNode>,
    states: Seq<Option<Map<LocalRef, Callable>>>,
    results: Map<Seq<char>, Callable>,
    i: int,
    acc: Option<Callable>,
) -> Option<Callable>
    decreases nodes.len() - i,
{
    if 0 <= i < nodes.len() {
        let next = match (nodes[i].kind, states[i]) {
            (FlowKind::Return, Some(state)) => Some(
                join_optional(acc, statement_value(scope, nodes[i], state, results)),
            ),
            _ => acc,
        };
        returned_from(scope, nodes, states, results, i + 1, next)
    } else {
        acc
    }
}

/// What a callable returns.
pub open spec fn return_value(
    scope: ScopeView,
    graph: FlowGraph,
    states: Seq<Option<Map<LocalRef, Callable>>>,
    results: Map<Seq<char>, Callable>,
) -> Callable {
    match returned_from(scope, graph.nodes@, states, results, 0, None) {
        Some(value) => value,
        None => plain(),
    }
}

/// The state at the node of a graph that holds a span.
pub open spec fn state_at(
    graph: FlowGraph,
    states: Seq<Option<Map<LocalRef, Callable>>>,
    span: Span,
) -> Option<Map<LocalRef, Callable>> {
    match enclosing_node(graph, span) {
        Some(at) => states[at],
        None => None,
    }
}

/// The captures of a lambda with what it captures from position `i` on.
pub open spec fn snapshot_from(
    locals: Seq<LocalRef>,
    state: Map<LocalRef, Callable>,
    external: bool,
    i: int,
    acc: Map<LocalRef, Callable>,
) -> Map<LocalRef, Callable>
    decreases locals.len() - i,
{
    if 0 <= i < locals.len() {
        let current = if acc.contains_key(locals[i]) {
            acc[locals[i]]
        } else {
            not_reached()
        };
        snapshot_from(
            locals,
            state,
            external,
            i + 1,
            acc.insert(locals[i], join(current, captured(state, locals[i], external))),
        )
    } else {
        acc
    }
}

/// The captures with those of the lambdas that a callable creates, from position `i` on.
pub open spec fn creations_from(
    program: ProgramView,
    id: Seq<char>,
    states: Seq<Option<Map<LocalRef, Callable>>>,
    external: bool,
    i: int,
    acc: Map<Seq<char>, Map<LocalRef, Callable>>,
) -> Map<Seq<char>, Map<LocalRef, Callable>>
    decreases program.creations.len() - i,
{
    if 0 <= i < program.creations.len() {
        let creation = program.creations[i];
        let lambda = creation.lambda;
        let graph = program.definitions[id].graph;
        let next = if creation.owner == id && program.definitions.contains_key(lambda) {
            let locals = program.definitions[lambda].captures;
            match state_at(graph, states, creation.span) {
                Some(state) => if locals.len() > 0 {
                    acc.insert(
                        lambda,
                        snapshot_from(locals, state, external, 0, captures_of(acc, lambda)),
                    )
                } else {
                    acc
                },
                None => acc,
            }
        } else {
            acc
        };
        creations_from(program, id, states, external, i + 1, next)
    } else {
        acc
    }
}

/// The values of the arguments from position `i` on.
pub open spec fn argument_values_from(
    scope: ScopeView,
    arguments: Seq<SyntaxNode>,
    state: Map<LocalRef, Callable>,
    results: Map<Seq<char>, Callable>,
    i: int,
    acc: Seq<Callable>,
) -> Seq<Callable>
    decreases arguments.len() - i,
{
    if 0 <= i < arguments.len() {
        argument_values_from(
            scope,
            arguments,
            state,
            results,
            i + 1,
            acc.push(value_of(scope, arguments[i], state, results, MAX_VALUE_DEPTH as nat)),
        )
    } else {
        acc
    }
}

/// A direct target is a method that takes its receiver as the first argument.
pub open spec fn takes_receiver(program: ProgramView, direct: Option<Seq<char>>) -> bool {
    match direct {
        Some(target) => program.definitions.contains_key(target) && (
        match program.definitions[target].symbol {
            Some(symbol) => program.names.instance_methods.contains(symbol),
            None => false,
        }),
        None => false,
    }
}

/// The values that a call passes.
pub open spec fn passed_values(
    program: ProgramView,
    scope: ScopeView,
    call: SyntaxNode,
    state: Map<LocalRef, Callable>,
    results: Map<Seq<char>, Callable>,
    direct: Option<Seq<char>>,
) -> Seq<Callable> {
    let front = match receiver_of(call) {
        Some(receiver) => if takes_receiver(program, direct) {
            Seq::empty().push(value_of(scope, receiver, state, results, MAX_VALUE_DEPTH as nat))
        } else {
            Seq::empty()
        },
        None => Seq::empty(),
    };
    argument_values_from(scope, arguments_of(call), state, results, 0, front)
}

/// Parameters with the values that a call passes.
pub open spec fn with_arguments(
    slots: Seq<Option<Callable>>,
    arguments: Seq<Callable>,
) -> Seq<Option<Callable>> {
    Seq::new(
        slots.len(),
        |i: int|
            if i < arguments.len() {
                Some(join_optional(slots[i], arguments[i]))
            } else {
                slots[i]
            },
    )
}

/// The parameters of the targets from position `i` on with the values that a call passes.
pub open spec fn targets_from(
    targets: Seq<Seq<char>>,
    arguments: Seq<Callable>,
    i: int,
    acc: Map<Seq<char>, Seq<Option<Callable>>>,
) -> Map<Seq<char>, Seq<Option<Callable>>>
    decreases targets.len() - i,
{
    if 0 <= i < targets.len() {
        let next = if acc.contains_key(targets[i]) {
            acc.insert(targets[i], with_arguments(acc[targets[i]], arguments))
        } else {
            acc
        };
        targets_from(targets, arguments, i + 1, next)
    } else {
        acc
    }
}

/// The call site of a call that may reach the targets of a value.
pub open spec fn site_of(program: ProgramView, call: ProgramCallView, called: Callable, direct: bool) -> CallSiteView {
    let file = text_in(program, call.file);
    CallSiteView {
        caller: call.caller,
        location: location_of(
            file.path@,
            file.source@,
            call.span.start as int,
            call.span.end as int,
        ),
        node_id: text_under(
            program.node_ids,
            SpanKey { file: call.file, start: call.span.start, end: call.span.end },
        ),
        dispatch: if direct {
            "direct"@
        } else {
            "indirect"@
        },
        targets: ascending::<String>(called.targets),
        complete: !called.bottom && called.complete,
    }
}

/// The targets of each call site ascend.
pub open spec fn sites_ascend(sites: Seq<CallSiteView>) -> bool {
    forall|k: int| 0 <= k < sites.len() ==> is_ascending::<String>((#[trigger] sites[k]).targets)
}

/// A pass with one more call.
pub open spec fn with_call(
    program: ProgramView,
    call: ProgramCallView,
    node: SyntaxNode,
    callee: SyntaxNode,
    state: Map<LocalRef, Callable>,
    results: Map<Seq<char>, Callable>,
    acc: AnalysisView,
) -> AnalysisView {
    let scope = scope_in(program, call.file);
    let direct = direct_target(scope, callee);
    let called = called_value(scope, callee, state, results);
    AnalysisView {
        summary: SummaryView {
            parameters: targets_from(
                ascending::<String>(called.targets),
                passed_values(program, scope, node, state, results, direct),
                0,
                acc.summary.parameters,
            ),
            ..acc.summary
        },
        call_sites: acc.call_sites.push(site_of(program, call, called, direct is Some)),
    }
}

/// What a call may call that no path reaches.
pub open spec fn idle_value(scope: ScopeView, callee: SyntaxNode) -> Callable {
    match direct_target(scope, callee) {
        Some(target) => only(target),
        None => not_reached(),
    }
}

/// A pass with one more call that no path reaches. It passes nothing on.
pub open spec fn with_idle_call(
    program: ProgramView,
    call: ProgramCallView,
    callee: SyntaxNode,
    acc: AnalysisView,
) -> AnalysisView {
    let scope = scope_in(program, call.file);
    AnalysisView {
        call_sites: acc.call_sites.push(
            site_of(
                program,
                call,
                idle_value(scope, callee),
                direct_target(scope, callee) is Some,
            ),
        ),
        ..acc
    }
}

/// A pass with the call at position `i`, where it is one of a callable.
pub open spec fn with_call_at(
    program: ProgramView,
    id: Seq<char>,
    states: Seq<Option<Map<LocalRef, Callable>>>,
    results: Map<Seq<char>, Callable>,
    i: int,
    acc: AnalysisView,
) -> AnalysisView {
    let call = program.calls[i];
    let scope = scope_in(program, call.file);
    let graph = program.definitions[id].graph;
    if call.caller == id {
        match (enclosing_node(graph, call.span), node_under(scope, call.span)) {
            (Some(at), Some(node)) => match part(node, "callee"@) {
                Some(callee) => match states[at] {
                    Some(state) => with_call(program, call, node, callee, state, results, acc),
                    None => with_idle_call(program, call, callee, acc),
                },
                None => acc,
            },
            _ => acc,
        }
    } else {
        acc
    }
}

/// A pass with the calls of a callable from position `i` on.
pub open spec fn calls_from(
    program: ProgramView,
    id: Seq<char>,
    states: Seq<Option<Map<LocalRef, Callable>>>,
    results: Map<Seq<char>, Callable>,
    i: int,
    acc: AnalysisView,
) -> AnalysisView
    decreases program.calls.len() - i,
{
    if 0 <= i < program.calls.len() {
        let next = with_call_at(program, id, states, results, i, acc);
        calls_from(program, id, states, results, i + 1, next)
    } else {
        acc
    }
}

/// A pass with what one more callable returns, mutates and passes to lambdas.
pub open spec fn with_outcome(
    program: ProgramView,
    id: Seq<char>,
    summary: SummaryView,
    external: bool,
    states: Seq<Option<Map<LocalRef, Callable>>>,
    acc: AnalysisView,
) -> AnalysisView {
    let definition = program.definitions[id];
    let scope = scope_in(program, definition.file);
    AnalysisView {
        summary: SummaryView {
            results: acc.summary.results.insert(
                id,
                return_value(scope, definition.graph, states, summary.results),
            ),
            mutations: acc.summary.mutations.insert(
                id,
                outputs_of(definition, states[definition.graph.exit as int]),
            ),
            captures: creations_from(program, id, states, external, 0, acc.summary.captures),
            ..acc.summary
        },
        ..acc
    }
}

/// A pass with one more callable.
pub open spec fn with_definition(
    program: ProgramView,
    id: Seq<char>,
    summary: SummaryView,
    external: bool,
    states: Seq<Option<Map<LocalRef, Callable>>>,
    acc: AnalysisView,
) -> AnalysisView {
    calls_from(
        program,
        id,
        states,
        summary.results,
        0,
        with_outcome(program, id, summary, external, states, acc),
    )
}

/// The states of a callable.
pub open spec fn definition_states(
    program: ProgramView,
    id: Seq<char>,
    summary: SummaryView,
    external: bool,
) -> Option<Seq<Option<Map<LocalRef, Callable>>>> {
    let definition = program.definitions[id];
    flow_states(
        scope_in(program, definition.file),
        definition.graph,
        summary.results,
        summary.mutations,
        entry_state(definition, id, summary, external),
    )
}

/// A pass with the callables from position `i` on; nothing when the states of one do not settle.
pub open spec fn analyzed_from(
    program: ProgramView,
    summary: SummaryView,
    external: bool,
    ids: Seq<Seq<char>>,
    i: int,
    acc: AnalysisView,
) -> Option<AnalysisView>
    decreases ids.len() - i,
{
    if 0 <= i < ids.len() {
        match definition_states(program, ids[i], summary, external) {
            Some(states) => analyzed_from(
                program,
                summary,
                external,
                ids,
                i + 1,
                with_definition(program, ids[i], summary, external, states, acc),
            ),
            None => None,
        }
    } else {
        Some(acc)
    }
}

/// Slots of which none is filled.
pub open spec fn empty_slots(n: nat) -> Seq<Option<Callable>> {
    Seq::new(n, |i: int| None)
}

/// A pass before its first callable.
pub open spec fn blank(program: ProgramView) -> AnalysisView {
    AnalysisView {
        summary: SummaryView {
            parameters: program.definitions.map_values(
                |d: DefinitionView| empty_slots(d.parameters.len()),
            ),
            results: Map::empty(),
            mutations: program.definitions.map_values(
                |d: DefinitionView| empty_slots(d.mutable_parameters.len()),
            ),
            captures: Map::empty(),
        },
        call_sites: Seq::empty(),
    }
}

/// One pass over a program, from what is known so far.
pub open spec fn analyzed(program: ProgramView, summary: SummaryView, external: bool) -> Option<
    AnalysisView,
> {
    analyzed_from(
        program,
        summary,
        external,
        ascending::<String>(program.definitions.dom()),
        0,
        blank(program),
    )
}

/// What is known of a program before the first pass.
pub open spec fn first_summary(program: ProgramView) -> SummaryView {
    SummaryView {
        parameters: Map::empty(),
        results: program.definitions.map_values(|d: DefinitionView| not_reached()),
        mutations: program.definitions.map_values(
            |d: DefinitionView|
                Seq::new(
                    d.mutable_parameters.len(),
                    |i: int|
                        if d.mutable_parameters[i] {
                            Some(not_reached())
                        } else {
                            None
                        },
                ),
        ),
        captures: Map::empty(),
    }
}

/// Passes over a program until one changes nothing, `rounds` of them at most.
pub open spec fn passes(
    program: ProgramView,
    external: bool,
    found: AnalysisView,
    rounds: nat,
) -> Option<AnalysisView>
    decreases rounds,
{
    if rounds == 0 {
        Some(found)
    } else {
        match analyzed(program, found.summary, external) {
            Some(next) => if next.summary == found.summary {
                Some(next)
            } else {
                passes(program, external, next, (rounds - 1) as nat)
            },
            None => None,
        }
    }
}

/// How many passes are made over a program with `n` callables.
pub open spec fn rounds_for(n: nat) -> nat {
    if 4 * n > usize::MAX {
        usize::MAX as nat
    } else if 4 * n < 8 {
        8
    } else {
        4 * n
    }
}

/// A call site of which more targets may be found.
pub open spec fn doubted_site(site: CallSiteView) -> CallSiteView {
    if site.dispatch == "indirect"@ {
        CallSiteView { complete: false, ..site }
    } else {
        site
    }
}

/// A pass of which the indirect calls may have more targets.
pub open spec fn doubted(found: AnalysisView) -> AnalysisView {
    AnalysisView {
        call_sites: Seq::new(
            found.call_sites.len(),
            |i: int| doubted_site(found.call_sites[i]),
        ),
        ..found
    }
}

/// What one more pass confirms: that pass when it changes nothing, and otherwise what was found,
/// with its indirect calls in doubt.
pub open spec fn confirmed(program: ProgramView, found: AnalysisView) -> AnalysisView {
    match analyzed(program, found.summary, true) {
        Some(next) => if next.summary == found.summary {
            next
        } else {
            doubted(found)
        },
        None => doubted(found),
    }
}

/// What the passes over a program find. Values from outside the program count as unknown only
/// when the flows inside it are known, so that they do not spoil recursive flows. Where the
/// passes end before they settle, no indirect call is said to be complete.
pub open spec fn program_analysis(program: ProgramView) -> Option<AnalysisView> {
    let rounds = rounds_for(ascending::<String>(program.definitions.dom()).len());
    let start = AnalysisView { summary: first_summary(program), call_sites: Seq::empty() };
    match passes(program, false, start, rounds) {
        Some(inside) => match passes(program, true, inside, rounds) {
            Some(found) => Some(confirmed(program, found)),
            None => None,
        },
        None => None,
    }
}

/// No indirect call is said to be complete.
pub open spec fn all_doubted(sites: Seq<CallSiteView>) -> bool {
    forall|k: int|
        0 <= k < sites.len() && (#[trigger] sites[k]).dispatch == "indirect"@
            ==> !sites[k].complete
}

/// The analysis of a program is a fixed point, which one more pass finds again, or else it says
/// of no indirect call that it is complete.
pub proof fn analysis_is_fixed_or_doubted(program: ProgramView)
    ensures
        program_analysis(program) matches Some(end) ==> analyzed(program, end.summary, true)
            == Some(end) || all_doubted(end.call_sites),
{
}

/// Passes that settle before their number runs out end in a fixed point.
pub proof fn settled_passes_are_fixed(
    program: ProgramView,
    external: bool,
    found: AnalysisView,
    rounds: nat,
)
    ensures
        passes(program, external, found, rounds) matches Some(end) ==> analyzed(
            program,
            end.summary,
            external,
        ) == Some(end) || passes_taken(program, external, found, rounds) == rounds,
    decreases rounds,
{
    if rounds > 0 {
        match analyzed(program, found.summary, external) {
            Some(next) => {
                if next.summary != found.summary {
                    settled_passes_are_fixed(program, external, next, (rounds - 1) as nat);
                }
            },
            None => {},
        }
    }
}

/// How many passes change what is known.
pub open spec fn passes_taken(
    program: ProgramView,
    external: bool,
    found: AnalysisView,
    rounds: nat,
) -> nat
    decreases rounds,
{
    if rounds == 0 {
        0
    } else {
        match analyzed(program, found.summary, external) {
            Some(next) => if next.summary == found.summary {
                0
            } else {
                1 + passes_taken(program, external, next, (rounds - 1) as nat)
            },
            None => 0,
        }
    }
}

/// What is known of the callables of a program.
#[derive(Debug)]
pub struct Summary {
    pub parameters: Table<String, Slots>,
    pub results: Returns,
    pub mutations: Mutations,
    pub captures: Table<String, State>,
}

impl View for Summary {
    type V = SummaryView;

    open spec fn view(&self) -> SummaryView {
        SummaryView {
            parameters: self.parameters@,
            results: self.results@,
            mutations: self.mutations@,
            captures: self.captures@,
        }
    }
}

impl Summary {
    /// Whether two summaries say the same.
    pub fn same(&self, other: &Summary) -> (r: bool)
        ensures
            r == (self@ == other@),
    {
        self.parameters.same(&other.parameters) && self.results.same(&other.results)
            && self.mutations.same(&other.mutations) && self.captures.same(&other.captures)
    }
}

/// What one pass over a program finds.
#[derive(Debug)]
pub struct ProgramAnalysis {
    pub summary: Summary,
    pub call_sites: Vec<CallSite>,
}

impl View for ProgramAnalysis {
    type V = AnalysisView;

    open spec fn view(&self) -> AnalysisView {
        AnalysisView { summary: self.summary@, call_sites: views(self.call_sites@) }
    }
}

fn outside_value(external: bool) -> (r: CallableValue)
    ensures
        r@ == from_outside(external),
{
    if external {
        CallableValue::default()
    } else {
        CallableValue::bottom()
    }
}

/// Slots of which none is filled.
fn blank_slots(n: usize) -> (r: Slots)
    ensures
        r@ == empty_slots(n as nat),
{
    let mut items: Vec<Option<CallableValue>> = Vec::new();
    let mut i: usize = 0;
    while i < n
        invariant
            i <= n,
            items@.len() == i,
            forall|j: int| 0 <= j < i ==> #[trigger] items@[j] is None,
        decreases n - i,
    {
        items.push(None);
        i += 1;
    }
    let r = Slots { items };
    assert(r@ =~= empty_slots(n as nat));
    r
}

impl<'a> Definition<'a> {
    /// The values of locals at the start of the callable.
    fn entry_state(&self, id: &String, summary: &Summary, external: bool) -> (r: State)
        ensures
            r@ == entry_state(self@, id@, summary@, external),
    {
        let mut state: State = Table::new();
        let n: usize = self.graph.locals.len();
        let mut i: usize = 0;
        while i < n
            invariant
                i <= n,
                n == self.graph.locals@.len(),
                forgotten_from(Map::empty(), self.graph.locals@, 0) == forgotten_from(
                    state@,
                    self.graph.locals@,
                    i as int,
                ),
            decreases n - i,
        {
            state.insert(self.graph.locals[i], CallableValue::default());
            i += 1;
        }
        let ghost start = state@;
        let values = summary.parameters.get(id);
        let ghost given = entry(summary@.parameters, id@);
        let m: usize = self.parameters.len();
        let mut j: usize = 0;
        while j < m
            invariant
                j <= m,
                m == self.parameters@.len(),
                values is Some <==> given is Some,
                values matches Some(v) ==> given == Some(v@),
                parameters_from(self.parameters@, given, external, 0, start) == parameters_from(
                    self.parameters@,
                    given,
                    external,
                    j as int,
                    state@,
                ),
            decreases m - j,
        {
            let value = match values {
                Some(slots) => if j < slots.items.len() {
                    assert(slots@[j as int] == opt_view(slots.items@[j as int]));
                    match &slots.items[j] {
                        Some(value) => value.clone(),
                        None => outside_value(external),
                    }
                } else {
                    outside_value(external)
                },
                None => outside_value(external),
            };
            state.insert(self.parameters[j], value);
            j += 1;
        }
        let ghost middle = state@;
        let held = summary.captures.get(id);
        let ghost locals = captures_of(summary@.captures, id@);
        let k: usize = self.captures.len();
        let mut l: usize = 0;
        while l < k
            invariant
                l <= k,
                k == self.captures@.len(),
                held is None ==> locals == Map::<LocalRef, Callable>::empty(),
                held matches Some(h) ==> locals == h@,
                captures_from(self.captures@, locals, external, 0, middle) == captures_from(
                    self.captures@,
                    locals,
                    external,
                    l as int,
                    state@,
                ),
            decreases k - l,
        {
            let capture = self.captures[l];
            let value = match held {
                Some(table) => captured_value(table, &capture, external),
                None => outside_value(external),
            };
            state.insert(capture, value);
            l += 1;
        }
        state
    }

    /// What the callable leaves in the parameters that it mutates.
    fn outputs(&self, exit: &Option<State>) -> (r: Slots)
        ensures
            r@ == outputs_of(self@, opt_view(*exit)),
    {
        let ghost goal = outputs_of(self@, opt_view(*exit));
        let n: usize = self.mutable_parameters.len();
        let mut items: Vec<Option<CallableValue>> = Vec::new();
        let mut i: usize = 0;
        while i < n
            invariant
                i <= n,
                n == self.mutable_parameters@.len(),
                goal == outputs_of(self@, opt_view(*exit)),
                items@.len() == i,
                forall|j: int| 0 <= j < i ==> opt_view(#[trigger] items@[j]) == goal[j],
            decreases n - i,
        {
            let item = match exit {
                Some(state) => if i < self.parameters.len() && self.mutable_parameters[i] {
                    Some(held_value(state, &self.parameters[i]))
                } else {
                    None
                },
                None => None,
            };
            items.push(item);
            i += 1;
        }
        let r = Slots { items };
        assert(r@ =~= goal);
        r
    }
}

fn captured_value(values: &State, local: &LocalRef, external: bool) -> (r: CallableValue)
    ensures
        r@ == captured(values@, *local, external),
{
    match values.get(local) {
        Some(value) => value.clone(),
        None => outside_value(external),
    }
}

/// What a callable returns.
fn callable_return_value(
    scope: &Scope<'_>,
    graph: &FlowGraph,
    states: &Vec<Option<State>>,
    results: &Returns,
) -> (r: CallableValue)
    requires
        states@.len() == graph.nodes@.len(),
    ensures
        r@ == return_value(scope@, *graph, state_views(states@), results@),
{
    let mut acc: Option<CallableValue> = None;
    let n: usize = graph.nodes.len();
    let mut i: usize = 0;
    while i < n
        invariant
            i <= n,
            n == graph.nodes@.len(),
            n == states@.len(),
            returned_from(scope@, graph.nodes@, state_views(states@), results@, 0, None)
                == returned_from(
                scope@,
                graph.nodes@,
                state_views(states@),
                results@,
                i as int,
                opt_view(acc),
            ),
        decreases n - i,
    {
        let node = &graph.nodes[i];
        match (node.kind, &states[i]) {
            (FlowKind::Return, Some(state)) => {
                let value = return_statement_value(scope, node, state, results);
                merge_optional_callable_value(&mut acc, &value);
            },
            _ => {},
        }
        i += 1;
    }
    match acc {
        Some(value) => value,
        None => CallableValue::non_callable(),
    }
}

fn return_statement_value(
    scope: &Scope<'_>,
    node: &FlowNode,
    state: &State,
    results: &Returns,
) -> (r: CallableValue)
    ensures
        r@ == statement_value(scope@, *node, state@, results@),
{
    match node.span {
        Some(span) => match scope.find_node_at_span(span) {
            Some(statement) => match statement.part("body") {
                Some(value) => scope.callable_value(value, state, results),
                None => CallableValue::non_callable(),
            },
            None => CallableValue::non_callable(),
        },
        None => CallableValue::non_callable(),
    }
}

/// The state at the node of a graph that holds a span.
fn containing_state<'a>(graph: &FlowGraph, states: &'a Vec<Option<State>>, span: Span) -> (r: Option<
    &'a State,
>)
    requires
        states@.len() == graph.nodes@.len(),
    ensures
        match (r, state_at(*graph, state_views(states@), span)) {
            (Some(a), Some(b)) => a@ == b,
            (None, None) => true,
            _ => false,
        },
{
    match containing_flow_node(graph, span) {
        Some(at) => match &states[at] {
            Some(state) => Some(state),
            None => None,
        },
        None => None,
    }
}

impl<'a> Program<'a> {
    /// One file of the program.
    pub fn scope(&self, file: u32) -> (r: Scope<'_>)
        requires
            file_from(self.files@, file, 0) is Some,
        ensures
            r@ == scope_in(self@, file),
    {
        let text = self.text(file);
        Scope { file, source: &text.source, root: &text.root, names: self.names }
    }

    fn text(&self, file: u32) -> (r: &SourceText)
        requires
            file_from(self.files@, file, 0) is Some,
        ensures
            *r == text_in(self@, file),
    {
        let at: usize = find_file(self.files, file).unwrap();
        &self.files[at].text
    }

    fn collect_captures(
        &self,
        id: &String,
        definition: &Definition<'_>,
        states: &Vec<Option<State>>,
        external: bool,
        captures: &mut Table<String, State>,
    )
        requires
            self.definitions@.contains_key(id@),
            self.definitions@[id@] == *definition,
            states@.len() == definition.graph.nodes@.len(),
        ensures
            final(captures)@ == creations_from(
                self@,
                id@,
                state_views(states@),
                external,
                0,
                old(captures)@,
            ),
    {
        let ghost start = captures@;
        let n: usize = self.creations.len();
        let mut i: usize = 0;
        while i < n
            invariant
                i <= n,
                n == self.creations@.len(),
                self.definitions@.contains_key(id@),
                self.definitions@[id@] == *definition,
                states@.len() == definition.graph.nodes@.len(),
                creations_from(self@, id@, state_views(states@), external, 0, start)
                    == creations_from(
                    self@,
                    id@,
                    state_views(states@),
                    external,
                    i as int,
                    captures@,
                ),
            decreases n - i,
        {
            let creation = &self.creations[i];
            if same_text(creation.owner.as_str(), id.as_str()) {
                match (
                    self.definitions.get(&creation.lambda),
                    containing_state(definition.graph, states, creation.span),
                ) {
                    (Some(lambda), Some(state)) => {
                        if lambda.captures.len() > 0 {
                            let held = match captures.get(&creation.lambda) {
                                Some(values) => values.copy(),
                                None => Table::new(),
                            };
                            let values = snapshot(&lambda.captures, state, external, held);
                            captures.insert(creation.lambda.clone(), values);
                        }
                    },
                    _ => {},
                }
            }
            i += 1;
        }
    }

    fn takes_receiver(&self, direct: &Option<String>) -> (r: bool)
        ensures
            r == takes_receiver(self@, opt_view(*direct)),
    {
        match direct {
            Some(target) => match self.definitions.get(target) {
                Some(definition) => match definition.symbol {
                    Some(symbol) => self.names.instance_methods.contains(&symbol),
                    None => false,
                },
                None => false,
            },
            None => false,
        }
    }

    /// The values that a call passes.
    fn call_argument_values(
        &self,
        scope: &Scope<'_>,
        call: &SyntaxNode,
        state: &State,
        results: &Returns,
        direct: &Option<String>,
    ) -> (r: Vec<CallableValue>)
        ensures
            views(r@) == passed_values(self@, scope@, *call, state@, results@, opt_view(*direct)),
    {
        let mut values: Vec<CallableValue> = Vec::new();
        if self.takes_receiver(direct) {
            match call.receiver() {
                Some(receiver) => {
                    values.push(scope.callable_value(receiver, state, results));
                },
                None => {},
            }
        }
        let arguments = call.call_arguments();
        let ghost front = views(values@);
        let n: usize = arguments.len();
        let mut i: usize = 0;
        while i < n
            invariant
                i <= n,
                n == arguments@.len(),
                argument_values_from(scope@, pointees(arguments@), state@, results@, 0, front)
                    == argument_values_from(
                    scope@,
                    pointees(arguments@),
                    state@,
                    results@,
                    i as int,
                    views(values@),
                ),
            decreases n - i,
        {
            assert(pointees(arguments@)[i as int] == *arguments@[i as int]);
            let value = scope.callable_value(arguments[i], state, results);
            values.push(value);
            i += 1;
        }
        values
    }

    /// Follows one call.
    fn analyze_call(
        &self,
        call: &ProgramCall,
        node: &SyntaxNode,
        callee: &SyntaxNode,
        state: &State,
        results: &Returns,
        found: &mut ProgramAnalysis,
    )
        requires
            file_from(self.files@, call.file, 0) is Some,
            sites_ascend(old(found)@.call_sites),
        ensures
            final(found)@ == with_call(
                self@,
                call@,
                *node,
                *callee,
                state@,
                results@,
                old(found)@,
            ),
            sites_ascend(final(found)@.call_sites),
    {
        let scope = self.scope(call.file);
        let direct = scope.direct_callable_target(callee);
        let called = match &direct {
            Some(target) => CallableValue::target(target.clone()),
            None => scope.callable_value(callee, state, results),
        };
        let arguments = self.call_argument_values(&scope, node, state, results, &direct);
        let targets = target_list(&called);
        let ghost start = found@;
        let ghost names = ascending::<String>(called.targets@);
        let n: usize = targets.len();
        let mut i: usize = 0;
        while i < n
            invariant
                i <= n,
                n == targets@.len(),
                views(targets@) == names,
                targets_from(names, views(arguments@), 0, start.summary.parameters)
                    == targets_from(
                    names,
                    views(arguments@),
                    i as int,
                    found.summary.parameters@,
                ),
                found@ == (AnalysisView {
                    summary: SummaryView {
                        parameters: found.summary.parameters@,
                        ..start.summary
                    },
                    ..start
                }),
            decreases n - i,
        {
            assert(names[i as int] == targets@[i as int]@);
            let merged = match found.summary.parameters.get(&targets[i]) {
                Some(slots) => Some(merge_arguments(slots, &arguments)),
                None => None,
            };
            match merged {
                Some(slots) => {
                    found.summary.parameters.insert(targets[i].clone(), slots);
                },
                None => {},
            }
            i += 1;
        }
        let site = self.call_site(call, &called, direct.is_some());
        found.call_sites.push(site);
    }

    fn call_site(&self, call: &ProgramCall, called: &CallableValue, direct: bool) -> (r: CallSite)
        requires
            file_from(self.files@, call.file, 0) is Some,
        ensures
            r@ == site_of(self@, call@, called@, direct),
            is_ascending::<String>(r@.targets),
    {
        let text = self.text(call.file);
        let place = location(
            text.path.as_str(),
            text.source.as_str(),
            call.span.start as usize,
            call.span.end as usize,
        );
        let key = SpanKey { file: call.file, start: call.span.start, end: call.span.end };
        let node_id = match self.node_ids.get(&key) {
            Some(id) => Some(id.clone()),
            None => None,
        };
        let site = CallSite {
            caller: call.caller.clone(),
            location: place,
            node_id,
            dispatch: if direct {
                "direct".to_owned()
            } else {
                "indirect".to_owned()
            },
            targets: target_list(called),
            complete: !called.bottom && called.complete,
        };
        assert(site@ =~= site_of(self@, call@, called@, direct));
        site
    }

    /// Records a call that no path reaches.
    fn record_idle_call(&self, call: &ProgramCall, callee: &SyntaxNode, found: &mut ProgramAnalysis)
        requires
            file_from(self.files@, call.file, 0) is Some,
            sites_ascend(old(found)@.call_sites),
        ensures
            final(found)@ == with_idle_call(self@, call@, *callee, old(found)@),
            sites_ascend(final(found)@.call_sites),
    {
        let scope = self.scope(call.file);
        let direct = scope.direct_callable_target(callee);
        let called = match &direct {
            Some(target) => CallableValue::target(target.clone()),
            None => CallableValue::bottom(),
        };
        let site = self.call_site(call, &called, direct.is_some());
        found.call_sites.push(site);
    }

    /// Follows the calls of a callable.
    fn analyze_calls(
        &self,
        id: &String,
        definition: &Definition<'_>,
        states: &Vec<Option<State>>,
        results: &Returns,
        found: &mut ProgramAnalysis,
    )
        requires
            program_ok(self@),
            self.definitions@.contains_key(id@),
            self.definitions@[id@] == *definition,
            states@.len() == definition.graph.nodes@.len(),
            sites_ascend(old(found)@.call_sites),
        ensures
            final(found)@ == calls_from(
                self@,
                id@,
                state_views(states@),
                results@,
                0,
                old(found)@,
            ),
            sites_ascend(final(found)@.call_sites),
    {
        let ghost start = found@;
        let n: usize = self.calls.len();
        let mut i: usize = 0;
        while i < n
            invariant
                i <= n,
                n == self.calls@.len(),
                program_ok(self@),
                self.definitions@.contains_key(id@),
                self.definitions@[id@] == *definition,
                states@.len() == definition.graph.nodes@.len(),
                sites_ascend(found@.call_sites),
                calls_from(self@, id@, state_views(states@), results@, 0, start) == calls_from(
                    self@,
                    id@,
                    state_views(states@),
                    results@,
                    i as int,
                    found@,
                ),
            decreases n - i,
        {
            let call = &self.calls[i];
            if same_text(call.caller.as_str(), id.as_str()) {
                let scope = self.scope(call.file);
                match (
                    containing_flow_node(definition.graph, call.span),
                    scope.find_node_at_span(call.span),
                ) {
                    (Some(at), Some(node)) => match (node.part("callee"), &states[at]) {
                        (Some(callee), Some(state)) => {
                            self.analyze_call(call, node, callee, state, results, found);
                        },
                        (Some(callee), None) => {
                            self.record_idle_call(call, callee, found);
                        },
                        (None, _) => {},
                    },
                    _ => {},
                }
            }
            i += 1;
        }
    }

    fn blank(&self) -> (r: ProgramAnalysis)
        ensures
            r@ == blank(self@),
    {
        let mut parameters: Table<String, Slots> = Table::new();
        let mut mutations: Mutations = Table::new();
        let ghost ids = self.definitions.sequence();
        let n: usize = self.definitions.len();
        let mut i: usize = 0;
        assert(ids.take(0) =~= Seq::empty());
        while i < n
            invariant
                i <= n,
                n == ids.len(),
                ids == self.definitions.sequence(),
                self.definitions@.dom() == ids.to_set(),
                forall|k: Seq<char>| #[trigger]
                    parameters@.contains_key(k) <==> ids.take(i as int).contains(k),
                forall|k: Seq<char>| #[trigger]
                    mutations@.contains_key(k) <==> ids.take(i as int).contains(k),
                forall|k: Seq<char>|
                    parameters@.contains_key(k) ==> #[trigger] parameters@[k] == empty_slots(
                        self.definitions@[k].parameters@.len(),
                    ),
                forall|k: Seq<char>|
                    mutations@.contains_key(k) ==> #[trigger] mutations@[k] == empty_slots(
                        self.definitions@[k].mutable_parameters@.len(),
                    ),
            decreases n - i,
        {
            let id = self.definitions.key_at(i);
            let definition = self.definitions.value_at(i);
            proof {
                lemma_taken(ids, i as int);
            }
            parameters.insert(id.clone(), blank_slots(definition.parameters.len()));
            mutations.insert(id.clone(), blank_slots(definition.mutable_parameters.len()));
            i += 1;
        }
        proof {
            assert(ids.take(n as int) =~= ids);
            assert forall|k: Seq<char>| self.definitions@.contains_key(k) <==> ids.contains(k) by {
                assert(ids.to_set().contains(k) <==> ids.contains(k));
            }
            assert(parameters@ =~= blank(self@).summary.parameters);
            assert(mutations@ =~= blank(self@).summary.mutations);
        }
        let r = ProgramAnalysis {
            summary: Summary {
                parameters,
                results: Table::new(),
                mutations,
                captures: Table::new(),
            },
            call_sites: Vec::new(),
        };
        assert(r@ =~= blank(self@));
        r
    }

    /// One pass over the program, from what is known so far; nothing when the states of a
    /// callable do not settle.
    pub fn analyze_program_calls(&self, summary: &Summary, external: bool) -> (r: Option<
        ProgramAnalysis,
    >)
        requires
            program_ok(self@),
        ensures
            opt_view(r) == analyzed(self@, summary@, external),
            r matches Some(found) ==> sites_ascend(found@.call_sites),
    {
        let mut found = self.blank();
        let ghost ids = ascending::<String>(self.definitions@.dom());
        let n: usize = self.definitions.len();
        let mut i: usize = 0;
        assert(self@.definitions.dom() =~= self.definitions@.dom());
        while i < n
            invariant
                i <= n,
                n == ids.len(),
                ids == self.definitions.sequence(),
                program_ok(self@),
                sites_ascend(found@.call_sites),
                analyzed(self@, summary@, external) == analyzed_from(
                    self@,
                    summary@,
                    external,
                    ids,
                    i as int,
                    found@,
                ),
            decreases n - i,
        {
            let id = self.definitions.key_at(i);
            let definition = self.definitions.value_at(i);
            assert(self@.definitions.contains_key(id@));
            let scope = self.scope(definition.file);
            let initial = definition.entry_state(id, summary, external);
            let states = match scope.callable_states(
                definition.graph,
                initial,
                &summary.results,
                &summary.mutations,
            ) {
                Some(states) => states,
                None => {
                    return None;
                },
            };
            let ghost before = found@;
            let outputs = definition.outputs(&states[definition.graph.exit]);
            found.summary.mutations.insert(id.clone(), outputs);
            let value = callable_return_value(
                &scope,
                definition.graph,
                &states,
                &summary.results,
            );
            found.summary.results.insert(id.clone(), value);
            self.collect_captures(
                id,
                definition,
                &states,
                external,
                &mut found.summary.captures,
            );
            proof {
                let middle = with_outcome(
                    self@,
                    id@,
                    summary@,
                    external,
                    state_views(states@),
                    before,
                );
                assert(found@ =~= middle);
            }
            self.analyze_calls(id, definition, &states, &summary.results, &mut found);
            i += 1;
        }
        Some(found)
    }

    fn first_summary(&self) -> (r: Summary)
        ensures
            r@ == first_summary(self@),
    {
        let mut results: Returns = Table::new();
        let mut mutations: Mutations = Table::new();
        let ghost goal = first_summary(self@);
        let ghost ids = self.definitions.sequence();
        let n: usize = self.definitions.len();
        let mut i: usize = 0;
        assert(ids.take(0) =~= Seq::empty());
        while i < n
            invariant
                i <= n,
                n == ids.len(),
                goal == first_summary(self@),
                ids == self.definitions.sequence(),
                self.definitions@.dom() == ids.to_set(),
                forall|k: Seq<char>| #[trigger]
                    results@.contains_key(k) <==> ids.take(i as int).contains(k),
                forall|k: Seq<char>| #[trigger]
                    mutations@.contains_key(k) <==> ids.take(i as int).contains(k),
                forall|k: Seq<char>|
                    results@.contains_key(k) ==> #[trigger] results@[k] == not_reached(),
                forall|k: Seq<char>|
                    mutations@.contains_key(k) ==> #[trigger] mutations@[k] == goal.mutations[k],
            decreases n - i,
        {
            let id = self.definitions.key_at(i);
            let definition = self.definitions.value_at(i);
            proof {
                lemma_taken(ids, i as int);
            }
            results.insert(id.clone(), CallableValue::bottom());
            let slots = first_outputs(&definition.mutable_parameters);
            assert(slots@ =~= goal.mutations[id@]);
            mutations.insert(id.clone(), slots);
            i += 1;
        }
        proof {
            assert(ids.take(n as int) =~= ids);
            assert forall|k: Seq<char>| self.definitions@.contains_key(k) <==> ids.contains(k) by {
                assert(ids.to_set().contains(k) <==> ids.contains(k));
            }
            assert(results@ =~= goal.results);
            assert(mutations@ =~= goal.mutations);
        }
        let r = Summary {
            parameters: Table::new(),
            results,
            mutations,
            captures: Table::new(),
        };
        assert(r@ =~= goal);
        r
    }

    /// Passes over the program until one changes nothing, `rounds` of them at most.
    fn repeat(&self, external: bool, start: ProgramAnalysis, rounds: usize) -> (r: Option<
        ProgramAnalysis,
    >)
        requires
            program_ok(self@),
            sites_ascend(start@.call_sites),
        ensures
            opt_view(r) == passes(self@, external, start@, rounds as nat),
            r matches Some(found) ==> sites_ascend(found@.call_sites),
    {
        let mut found = start;
        let mut left: usize = rounds;
        while left > 0
            invariant
                program_ok(self@),
                sites_ascend(found@.call_sites),
                passes(self@, external, start@, rounds as nat) == passes(
                    self@,
                    external,
                    found@,
                    left as nat,
                ),
            decreases left,
        {
            let next = match self.analyze_program_calls(&found.summary, external) {
                Some(next) => next,
                None => {
                    return None;
                },
            };
            let stable = next.summary.same(&found.summary);
            if stable {
                return Some(next);
            }
            found = next;
            left -= 1;
        }
        Some(found)
    }

    /// What the passes over the program find; nothing when the states of a callable do not
    /// settle.
    pub fn collect_program_call_sites(&self) -> (r: Option<ProgramAnalysis>)
        requires
            program_ok(self@),
        ensures
            opt_view(r) == program_analysis(self@),
            r matches Some(found) ==> sites_ascend(found@.call_sites),
    {
        let n: usize = self.definitions.len();
        assert(self@.definitions.dom() =~= self.definitions@.dom());
        let rounds: usize = if n > usize::MAX / 4 {
            usize::MAX
        } else if 4 * n < 8 {
            8
        } else {
            4 * n
        };
        let start = ProgramAnalysis { summary: self.first_summary(), call_sites: Vec::new() };
        assert(start@ =~= AnalysisView {
            summary: first_summary(self@),
            call_sites: Seq::empty(),
        });
        match self.repeat(false, start, rounds) {
            Some(inside) => match self.repeat(true, inside, rounds) {
                Some(found) => Some(self.confirm(found)),
                None => None,
            },
            None => None,
        }
    }

    /// Takes what one more pass finds, where it changes nothing; leaves the indirect calls in
    /// doubt otherwise.
    fn confirm(&self, found: ProgramAnalysis) -> (r: ProgramAnalysis)
        requires
            program_ok(self@),
            sites_ascend(found@.call_sites),
        ensures
            r@ == confirmed(self@, found@),
            sites_ascend(r@.call_sites),
    {
        if let Some(next) = self.analyze_program_calls(&found.summary, true) {
            if next.summary.same(&found.summary) {
                return next;
            }
        }
        doubt(found)
    }
}

fn doubt(found: ProgramAnalysis) -> (r: ProgramAnalysis)
    requires
        sites_ascend(found@.call_sites),
    ensures
        r@ == doubted(found@),
        sites_ascend(r@.call_sites),
{
    let ghost start = found@;
    let rest = found.call_sites;
    let mut sites: Vec<CallSite> = Vec::new();
    let n: usize = rest.len();
    let mut i: usize = 0;
    while i < n
        invariant
            i <= n,
            n == rest@.len(),
            n == start.call_sites.len(),
            views(rest@) == start.call_sites,
            sites@.len() == i,
            forall|j: int|
                0 <= j < i ==> (#[trigger] sites@[j])@ == doubted_site(start.call_sites[j]),
        decreases n - i,
    {
        let site = &rest[i];
        assert(start.call_sites[i as int] == site@);
        let mut copy = site.copied();
        if same_text(copy.dispatch.as_str(), "indirect") {
            copy.complete = false;
        }
        assert(copy@ =~= doubted_site(start.call_sites[i as int]));
        sites.push(copy);
        i += 1;
    }
    let r = ProgramAnalysis { summary: found.summary, call_sites: sites };
    assert(r@ =~= doubted(start));
    r
}

fn first_outputs(mutable: &Vec<bool>) -> (r: Slots)
    ensures
        r@ == Seq::new(
            mutable@.len(),
            |i: int|
                if mutable@[i] {
                    Some(not_reached())
                } else {
                    None
                },
        ),
{
    let n: usize = mutable.len();
    let mut items: Vec<Option<CallableValue>> = Vec::new();
    let mut i: usize = 0;
    while i < n
        invariant
            i <= n,
            n == mutable@.len(),
            items@.len() == i,
            forall|j: int|
                0 <= j < i ==> opt_view(#[trigger] items@[j]) == (if mutable@[j] {
                    Some(not_reached())
                } else {
                    None
                }),
        decreases n - i,
    {
        items.push(
            if mutable[i] {
                Some(CallableValue::bottom())
            } else {
                None
            },
        );
        i += 1;
    }
    let r = Slots { items };
    assert(r@ =~= Seq::new(
        mutable@.len(),
        |i: int|
            if mutable@[i] {
                Some(not_reached())
            } else {
                None
            },
    ));
    r
}

fn snapshot(locals: &Vec<LocalRef>, state: &State, external: bool, held: State) -> (r: State)
    ensures
        r@ == snapshot_from(locals@, state@, external, 0, held@),
{
    let mut values = held;
    let n: usize = locals.len();
    let mut i: usize = 0;
    while i < n
        invariant
            i <= n,
            n == locals@.len(),
            snapshot_from(locals@, state@, external, 0, held@) == snapshot_from(
                locals@,
                state@,
                external,
                i as int,
                values@,
            ),
        decreases n - i,
    {
        let value = captured_value(state, &locals[i], external);
        let current = match values.get(&locals[i]) {
            Some(current) => current.clone(),
            None => CallableValue::bottom(),
        };
        values.insert(locals[i], merged_callable_value(&current, &value));
        i += 1;
    }
    values
}

fn merge_arguments(slots: &Slots, arguments: &Vec<CallableValue>) -> (r: Slots)
    ensures
        r@ == with_arguments(slots@, views(arguments@)),
{
    let ghost goal = with_arguments(slots@, views(arguments@));
    let n: usize = slots.items.len();
    let mut items: Vec<Option<CallableValue>> = Vec::new();
    let mut i: usize = 0;
    while i < n
        invariant
            i <= n,
            n == slots.items@.len(),
            goal == with_arguments(slots@, views(arguments@)),
            items@.len() == i,
            forall|j: int| 0 <= j < i ==> opt_view(#[trigger] items@[j]) == goal[j],
        decreases n - i,
    {
        assert(slots@[i as int] == opt_view(slots.items@[i as int]));
        let mut item = match &slots.items[i] {
            Some(value) => Some(value.clone()),
            None => None,
        };
        if i < arguments.len() {
            merge_optional_callable_value(&mut item, &arguments[i]);
        }
        items.push(item);
        i += 1;
    }
    let r = Slots { items };
    assert(r@ =~= goal);
    r
}

/// The targets of a value in ascending order.
pub fn target_list(value: &CallableValue) -> (r: Vec<String>)
    ensures
        views(r@) == ascending::<String>(value@.targets),
        is_ascending::<String>(views(r@)),
{
    let n: usize = value.targets.len();
    let mut out: Vec<String> = Vec::new();
    let mut i: usize = 0;
    while i < n
        invariant
            i <= n,
            n == value.targets.sequence().len(),
            out@.len() == i,
            forall|j: int| 0 <= j < i ==> (#[trigger] out@[j])@ == value.targets.sequence()[j],
        decreases n - i,
    {
        out.push(value.targets.at(i).clone());
        i += 1;
    }
    assert(views(out@) =~= value.targets.sequence());
    out
}

} // verus!
