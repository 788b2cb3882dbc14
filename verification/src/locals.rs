//! Laws of the locals that a callable lists: no node of its graph changes which they are.
use crate::effects::{
    actuals_for, after_call, after_collections, after_collections_from, after_outputs,
    after_outputs_from, after_outputs_of, assigned_from, assignments, assignments_from,
    called_value, declared, declared_from, forgotten_from, node_assignments, outputs_from, slot_at,
    stored_whole, takes_apart, transferred, update_from, updated_from, updates_from, with_update,
    written, UpdateView,
};
use crate::evaluate::{value_of, MAX_VALUE_DEPTH};
use crate::flow::{graph_ok, FlowGraph, FlowNode};
use crate::ids::LocalRef;
use crate::lattice::{unknown, Callable};
use crate::methods::{arguments_of, receiver_of};
use crate::program::{
    captured, captures_from, captures_of, definition_states, entry, entry_state, parameter_value,
    parameters_from, scope_in, DefinitionView, ProgramView, SummaryView,
};
use crate::scope::{defined_at, local_path, node_under, PathView, ScopeView};
use crate::states::{keeps_locals, node_settled, state_covers, states_are_settled};
use crate::syntax::{
    field_from, kind_of, lemma_child, lemma_named, lemma_part, named, part, NodeKind, SyntaxNode,
};
use crate::tables::ascending;
use vstd::prelude::*;

verus! {

/// A path, where there is one, starts at one of the locals.
pub open spec fn starts_in(path: Option<PathView>, locals: Set<LocalRef>) -> bool {
    path matches Some(p) ==> locals.contains(p.root)
}

/// The local of which a call calls a method, and those that it hands on, are among `locals`.
pub open spec fn call_within(scope: ScopeView, call: SyntaxNode, locals: Set<LocalRef>) -> bool {
    &&& receiver_of(call) matches Some(receiver) ==> starts_in(
        local_path(scope, receiver, None),
        locals,
    )
    &&& forall|i: int|
        0 <= i < arguments_of(call).len() ==> starts_in(
            local_path(scope, #[trigger] arguments_of(call)[i], None),
            locals,
        )
}

/// The locals that an expression reads, or of which it calls a method, or that it hands to a
/// call, are among `locals`. The bodies of lambdas do not count.
pub open spec fn reads_within(scope: ScopeView, node: SyntaxNode, locals: Set<LocalRef>) -> bool
    decreases node, node.children@.len() + 1,
{
    &&& starts_in(local_path(scope, node, None), locals)
    &&& kind_of(node.kind@) is Call ==> call_within(scope, node, locals)
    &&& !(kind_of(node.kind@) is Lambda) ==> reads_within_from(scope, node, 0, locals)
}

pub open spec fn reads_within_from(
    scope: ScopeView,
    node: SyntaxNode,
    i: int,
    locals: Set<LocalRef>,
) -> bool
    decreases node, node.children@.len() - i,
{
    0 <= i < node.children@.len() ==> {
        proof {
            lemma_child(node, i);
        }
        reads_within(scope, node.children@[i], locals) && reads_within_from(
            scope,
            node,
            i + 1,
            locals,
        )
    }
}

/// The locals that the parts of a pattern define are among `locals`.
pub open spec fn defines_within(scope: ScopeView, node: SyntaxNode, locals: Set<LocalRef>) -> bool
    decreases node, node.children@.len() + 1,
{
    &&& defined_at(scope, node) matches Some(local) ==> locals.contains(local)
    &&& defines_within_from(scope, node, 0, locals)
}

pub open spec fn defines_within_from(
    scope: ScopeView,
    node: SyntaxNode,
    i: int,
    locals: Set<LocalRef>,
) -> bool
    decreases node, node.children@.len() - i,
{
    0 <= i < node.children@.len() ==> {
        proof {
            lemma_child(node, i);
        }
        defines_within(scope, node.children@[i], locals) && defines_within_from(
            scope,
            node,
            i + 1,
            locals,
        )
    }
}

/// What the node of a control-flow graph writes, reads and defines is among `locals`.
pub open spec fn node_within(scope: ScopeView, node: FlowNode, locals: Set<LocalRef>) -> bool {
    &&& forall|i: int| 0 <= i < node.writes@.len() ==> locals.contains(#[trigger] node.writes@[i])
    &&& node.span matches Some(span) ==> (node_under(scope, span) matches Some(syntax) ==> {
        &&& reads_within(scope, syntax, locals)
        &&& part(syntax, "left"@) matches Some(left) ==> defines_within(scope, left, locals)
    })
}

proof fn lemma_reads_child(
    scope: ScopeView,
    node: SyntaxNode,
    i: int,
    locals: Set<LocalRef>,
    j: int,
)
    requires
        0 <= i <= j < node.children@.len(),
        reads_within_from(scope, node, i, locals),
    ensures
        reads_within(scope, node.children@[j], locals),
    decreases j - i,
{
    if i < j {
        lemma_reads_child(scope, node, i + 1, locals, j);
    }
}

proof fn lemma_defines_child(
    scope: ScopeView,
    node: SyntaxNode,
    i: int,
    locals: Set<LocalRef>,
    j: int,
)
    requires
        0 <= i <= j < node.children@.len(),
        defines_within_from(scope, node, i, locals),
    ensures
        defines_within(scope, node.children@[j], locals),
    decreases j - i,
{
    if i < j {
        lemma_defines_child(scope, node, i + 1, locals, j);
    }
}

/// A named child is a child.
proof fn lemma_named_child(node: SyntaxNode, i: int) -> (j: int)
    requires
        0 <= i < named(node).len(),
    ensures
        0 <= j < node.children@.len(),
        node.children@[j] == named(node)[i],
{
    let keep = |c: SyntaxNode| c.named;
    assert(named(node).contains(named(node)[i]));
    node.children@.lemma_filter_contains_rev(keep, named(node)[i]);
    assert(node.children@.contains(named(node)[i]));
    choose|j: int| 0 <= j < node.children@.len() && node.children@[j] == named(node)[i]
}

proof fn lemma_reads_named(scope: ScopeView, node: SyntaxNode, i: int, locals: Set<LocalRef>)
    requires
        0 <= i < named(node).len(),
        reads_within(scope, node, locals),
        !(kind_of(node.kind@) is Lambda),
    ensures
        reads_within(scope, named(node)[i], locals),
{
    let j = lemma_named_child(node, i);
    lemma_reads_child(scope, node, 0, locals, j);
}

proof fn lemma_defines_named(scope: ScopeView, node: SyntaxNode, i: int, locals: Set<LocalRef>)
    requires
        0 <= i < named(node).len(),
        defines_within(scope, node, locals),
    ensures
        defines_within(scope, named(node)[i], locals),
{
    let j = lemma_named_child(node, i);
    lemma_defines_child(scope, node, 0, locals, j);
}

/// Every update stores at one of the locals.
spec fn updates_in(updates: Seq<UpdateView>, locals: Set<LocalRef>) -> bool {
    forall|i: int| 0 <= i < updates.len() ==> locals.contains((#[trigger] updates[i]).path.root)
}

proof fn lemma_written(state: Map<LocalRef, Callable>, path: PathView, value: Callable)
    requires
        state.dom().contains(path.root),
    ensures
        written(state, path, value).dom() == state.dom(),
{
    assert(written(state, path, value).dom() =~= state.dom());
}

proof fn lemma_forgotten(state: Map<LocalRef, Callable>, locals: Seq<LocalRef>, i: int)
    requires
        0 <= i,
        forall|j: int| 0 <= j < locals.len() ==> state.dom().contains(#[trigger] locals[j]),
    ensures
        forgotten_from(state, locals, i).dom() == state.dom(),
    decreases locals.len() - i,
{
    if i < locals.len() {
        let next = state.insert(locals[i], unknown());
        assert(next.dom() =~= state.dom());
        lemma_forgotten(next, locals, i + 1);
    }
}

proof fn lemma_after_call(
    scope: ScopeView,
    call: SyntaxNode,
    state: Map<LocalRef, Callable>,
    results: Map<Seq<char>, Callable>,
)
    requires
        receiver_of(call) matches Some(receiver) ==> starts_in(
            local_path(scope, receiver, None),
            state.dom(),
        ),
    ensures
        after_call(scope, call, state, results).dom() == state.dom(),
{
    match receiver_of(call) {
        Some(receiver) => match local_path(scope, receiver, None) {
            Some(path) => {
                assert forall|value: Callable| #[trigger]
                    written(state, path, value).dom() == state.dom() by {
                    lemma_written(state, path, value);
                }
            },
            None => {},
        },
        None => {},
    }
}

proof fn lemma_after_collections(
    scope: ScopeView,
    node: SyntaxNode,
    state: Map<LocalRef, Callable>,
    results: Map<Seq<char>, Callable>,
)
    requires
        reads_within(scope, node, state.dom()),
    ensures
        after_collections(scope, node, state, results).dom() == state.dom(),
    decreases node, named(node).len() + 1,
{
    if !(kind_of(node.kind@) is Lambda) {
        lemma_after_collections_from(scope, node, 0, state, results);
        if kind_of(node.kind@) is Call {
            let inner = after_collections_from(scope, node, 0, state, results);
            lemma_after_call(scope, node, inner, results);
        }
    }
}

proof fn lemma_after_collections_from(
    scope: ScopeView,
    node: SyntaxNode,
    i: int,
    state: Map<LocalRef, Callable>,
    results: Map<Seq<char>, Callable>,
)
    requires
        reads_within(scope, node, state.dom()),
        !(kind_of(node.kind@) is Lambda),
    ensures
        after_collections_from(scope, node, i, state, results).dom() == state.dom(),
    decreases node, named(node).len() - i,
{
    if 0 <= i < named(node).len() {
        lemma_named(node, i);
        lemma_reads_named(scope, node, i, state.dom());
        lemma_after_collections(scope, named(node)[i], state, results);
        let next = after_collections(scope, named(node)[i], state, results);
        lemma_after_collections_from(scope, node, i + 1, next, results);
    }
}

proof fn lemma_with_update(
    updates: Seq<UpdateView>,
    path: PathView,
    value: Callable,
    locals: Set<LocalRef>,
)
    requires
        updates_in(updates, locals),
        locals.contains(path.root),
    ensures
        updates_in(with_update(updates, path, value), locals),
{
    let after = with_update(updates, path, value);
    let at = update_from(updates, path, 0);
    assert forall|i: int| 0 <= i < after.len() implies locals.contains(
        (#[trigger] after[i]).path.root,
    ) by {
        if i < updates.len() {
            assert(locals.contains(updates[i].path.root));
        }
    }
}

proof fn lemma_outputs(
    scope: ScopeView,
    actuals: Seq<SyntaxNode>,
    outputs: Seq<Option<Callable>>,
    i: int,
    acc: Seq<UpdateView>,
    locals: Set<LocalRef>,
)
    requires
        updates_in(acc, locals),
        forall|j: int|
            0 <= j < actuals.len() ==> starts_in(
                local_path(scope, #[trigger] actuals[j], None),
                locals,
            ),
    ensures
        updates_in(outputs_from(scope, actuals, outputs, i, acc), locals),
    decreases actuals.len() - i,
{
    if 0 <= i < actuals.len() && i < outputs.len() {
        assert(starts_in(local_path(scope, actuals[i], None), locals));
        let next = match (outputs[i], local_path(scope, actuals[i], None)) {
            (Some(output), Some(path)) => if output.bottom {
                acc
            } else {
                lemma_with_update(acc, path, output, locals);
                with_update(acc, path, output)
            },
            _ => acc,
        };
        lemma_outputs(scope, actuals, outputs, i + 1, next, locals);
    }
}

proof fn lemma_updates(
    scope: ScopeView,
    call: SyntaxNode,
    targets: Seq<Seq<char>>,
    mutations: Map<Seq<char>, Seq<Option<Callable>>>,
    i: int,
    acc: Seq<UpdateView>,
    locals: Set<LocalRef>,
)
    requires
        updates_in(acc, locals),
        call_within(scope, call, locals),
    ensures
        updates_in(updates_from(scope, call, targets, mutations, i, acc), locals),
    decreases targets.len() - i,
{
    if 0 <= i < targets.len() {
        let next = if mutations.contains_key(targets[i]) {
            let outputs = mutations[targets[i]];
            let arguments = arguments_of(call);
            let actuals = actuals_for(receiver_of(call), arguments, outputs.len());
            assert forall|j: int| 0 <= j < actuals.len() implies starts_in(
                local_path(scope, #[trigger] actuals[j], None),
                locals,
            ) by {
                if actuals.len() == arguments.len() {
                    assert(actuals[j] == arguments[j]);
                } else if j > 0 {
                    assert(actuals[j] == arguments[j - 1]);
                }
            }
            lemma_outputs(scope, actuals, outputs, 0, acc, locals);
            outputs_from(scope, actuals, outputs, 0, acc)
        } else {
            acc
        };
        lemma_updates(scope, call, targets, mutations, i + 1, next, locals);
    }
}

proof fn lemma_updated(state: Map<LocalRef, Callable>, updates: Seq<UpdateView>, i: int)
    requires
        updates_in(updates, state.dom()),
    ensures
        updated_from(state, updates, i).dom() == state.dom(),
    decreases updates.len() - i,
{
    if 0 <= i < updates.len() {
        assert(state.dom().contains(updates[i].path.root));
        lemma_written(state, updates[i].path, updates[i].value);
        lemma_updated(written(state, updates[i].path, updates[i].value), updates, i + 1);
    }
}

proof fn lemma_after_outputs_of(
    scope: ScopeView,
    call: SyntaxNode,
    state: Map<LocalRef, Callable>,
    results: Map<Seq<char>, Callable>,
    mutations: Map<Seq<char>, Seq<Option<Callable>>>,
)
    requires
        call_within(scope, call, state.dom()),
    ensures
        after_outputs_of(scope, call, state, results, mutations).dom() == state.dom(),
{
    match part(call, "callee"@) {
        Some(callee) => {
            let called = called_value(scope, callee, state, results);
            let targets = ascending::<String>(called.targets);
            let updates = updates_from(scope, call, targets, mutations, 0, Seq::empty());
            lemma_updates(scope, call, targets, mutations, 0, Seq::empty(), state.dom());
            lemma_updated(state, updates, 0);
        },
        None => {},
    }
}

proof fn lemma_after_outputs(
    scope: ScopeView,
    node: SyntaxNode,
    state: Map<LocalRef, Callable>,
    results: Map<Seq<char>, Callable>,
    mutations: Map<Seq<char>, Seq<Option<Callable>>>,
)
    requires
        reads_within(scope, node, state.dom()),
    ensures
        after_outputs(scope, node, state, results, mutations).dom() == state.dom(),
    decreases node, named(node).len() + 1,
{
    if !(kind_of(node.kind@) is Lambda) {
        lemma_after_outputs_from(scope, node, 0, state, results, mutations);
        if kind_of(node.kind@) is Call {
            let inner = after_outputs_from(scope, node, 0, state, results, mutations);
            lemma_after_outputs_of(scope, node, inner, results, mutations);
        }
    }
}

proof fn lemma_after_outputs_from(
    scope: ScopeView,
    node: SyntaxNode,
    i: int,
    state: Map<LocalRef, Callable>,
    results: Map<Seq<char>, Callable>,
    mutations: Map<Seq<char>, Seq<Option<Callable>>>,
)
    requires
        reads_within(scope, node, state.dom()),
        !(kind_of(node.kind@) is Lambda),
    ensures
        after_outputs_from(scope, node, i, state, results, mutations).dom() == state.dom(),
    decreases node, named(node).len() - i,
{
    if 0 <= i < named(node).len() {
        lemma_named(node, i);
        lemma_reads_named(scope, node, i, state.dom());
        lemma_after_outputs(scope, named(node)[i], state, results, mutations);
        let next = after_outputs(scope, named(node)[i], state, results, mutations);
        lemma_after_outputs_from(scope, node, i + 1, next, results, mutations);
    }
}

proof fn lemma_joined_updates(a: Seq<UpdateView>, b: Seq<UpdateView>, locals: Set<LocalRef>)
    requires
        updates_in(a, locals),
        updates_in(b, locals),
    ensures
        updates_in(a + b, locals),
{
    assert forall|i: int| 0 <= i < (a + b).len() implies locals.contains(
        (#[trigger] (a + b)[i]).path.root,
    ) by {
        if i < a.len() {
            assert(locals.contains(a[i].path.root));
        } else {
            assert(locals.contains(b[i - a.len()].path.root));
        }
    }
}

proof fn lemma_declared(
    scope: ScopeView,
    pattern: SyntaxNode,
    value: Callable,
    locals: Set<LocalRef>,
)
    requires
        defines_within(scope, pattern, locals),
    ensures
        updates_in(declared(scope, pattern, value), locals),
    decreases pattern, named(pattern).len() + 1,
{
    if defined_at(scope, pattern) is None {
        lemma_declared_from(scope, pattern, 0, value, Seq::empty(), locals);
    }
}

proof fn lemma_declared_from(
    scope: ScopeView,
    pattern: SyntaxNode,
    i: int,
    value: Callable,
    acc: Seq<UpdateView>,
    locals: Set<LocalRef>,
)
    requires
        updates_in(acc, locals),
        defines_within(scope, pattern, locals),
    ensures
        updates_in(declared_from(scope, pattern, i, value, acc), locals),
    decreases pattern, named(pattern).len() - i,
{
    if 0 <= i < named(pattern).len() {
        lemma_named(pattern, i);
        let part = if takes_apart(pattern) {
            slot_at(value, i as nat)
        } else {
            value
        };
        let more = declared(scope, named(pattern)[i], part);
        lemma_defines_named(scope, pattern, i, locals);
        lemma_declared(scope, named(pattern)[i], part, locals);
        lemma_joined_updates(acc, more, locals);
        lemma_declared_from(scope, pattern, i + 1, value, acc + more, locals);
    }
}

/// With the locals that are written, an expression stands for the local that it reads or for the
/// one that is written.
proof fn lemma_written_path(scope: ScopeView, node: SyntaxNode, writes: Seq<LocalRef>)
    ensures
        local_path(scope, node, Some(writes)) matches Some(path) ==> {
            ||| local_path(scope, node, None) matches Some(read) && read.root == path.root
            ||| writes.len() == 1 && path.root == writes[0]
        },
    decreases node,
{
    lemma_part(node, "inner"@);
    lemma_part(node, "obj"@);
    match kind_of(node.kind@) {
        NodeKind::Parenthesized => match part(node, "inner"@) {
            Some(inner) => {
                lemma_written_path(scope, inner, writes);
            },
            None => {},
        },
        NodeKind::DotAccess => match part(node, "obj"@) {
            Some(object) => {
                lemma_written_path(scope, object, writes);
            },
            None => {},
        },
        _ => {},
    }
}

proof fn lemma_stored_whole(
    scope: ScopeView,
    target: SyntaxNode,
    value: Callable,
    writes: Seq<LocalRef>,
    locals: Set<LocalRef>,
)
    requires
        starts_in(local_path(scope, target, None), locals),
        forall|i: int| 0 <= i < writes.len() ==> locals.contains(#[trigger] writes[i]),
    ensures
        updates_in(stored_whole(scope, target, value, writes), locals),
{
    lemma_written_path(scope, target, writes);
}

proof fn lemma_assignments(
    scope: ScopeView,
    target: SyntaxNode,
    value: Callable,
    writes: Seq<LocalRef>,
    locals: Set<LocalRef>,
)
    requires
        reads_within(scope, target, locals),
        defines_within(scope, target, locals),
        forall|i: int| 0 <= i < writes.len() ==> locals.contains(#[trigger] writes[i]),
    ensures
        updates_in(assignments(scope, target, value, writes), locals),
    decreases target, named(target).len() + 1,
{
    lemma_stored_whole(scope, target, value, writes, locals);
    match kind_of(target.kind@) {
        NodeKind::Tensor | NodeKind::TypedTuple => {
            lemma_assignments_from(scope, target, 0, value, writes, Seq::empty(), locals);
        },
        NodeKind::Declaration => {
            lemma_declared(scope, target, value, locals);
        },
        _ => {},
    }
}

proof fn lemma_assignments_from(
    scope: ScopeView,
    target: SyntaxNode,
    i: int,
    value: Callable,
    writes: Seq<LocalRef>,
    acc: Seq<UpdateView>,
    locals: Set<LocalRef>,
)
    requires
        updates_in(acc, locals),
        reads_within(scope, target, locals),
        defines_within(scope, target, locals),
        !(kind_of(target.kind@) is Lambda),
        forall|j: int| 0 <= j < writes.len() ==> locals.contains(#[trigger] writes[j]),
    ensures
        updates_in(assignments_from(scope, target, i, value, writes, acc), locals),
    decreases target, named(target).len() - i,
{
    if 0 <= i < named(target).len() {
        lemma_named(target, i);
        lemma_reads_named(scope, target, i, locals);
        lemma_defines_named(scope, target, i, locals);
        let slot = slot_at(value, i as nat);
        let more = assignments(scope, named(target)[i], slot, writes);
        lemma_assignments(scope, named(target)[i], slot, writes, locals);
        lemma_joined_updates(acc, more, locals);
        lemma_assignments_from(scope, target, i + 1, value, writes, acc + more, locals);
    }
}

proof fn lemma_assigned(
    state: Map<LocalRef, Callable>,
    before: Map<LocalRef, Callable>,
    updates: Seq<UpdateView>,
    i: int,
)
    requires
        updates_in(updates, state.dom()),
    ensures
        assigned_from(state, before, updates, i).dom() == state.dom(),
    decreases updates.len() - i,
{
    if 0 <= i < updates.len() {
        let next = written(before, updates[i].path, updates[i].value);
        let root = updates[i].path.root;
        assert(state.dom().contains(updates[i].path.root));
        assert(state.insert(root, next[root]).dom() =~= state.dom());
        lemma_assigned(state.insert(root, next[root]), next, updates, i + 1);
    }
}

/// A node that writes, reads and defines only locals that a state lists changes none of the
/// locals that it lists.
pub proof fn node_keeps_locals(
    scope: ScopeView,
    node: FlowNode,
    state: Map<LocalRef, Callable>,
    results: Map<Seq<char>, Callable>,
    mutations: Map<Seq<char>, Seq<Option<Callable>>>,
)
    requires
        node_within(scope, node, state.dom()),
    ensures
        transferred(scope, node, state, results, mutations).dom() == state.dom(),
{
    match node.span {
        Some(span) => {
            let writes = node.writes@;
            let cleared = forgotten_from(state, writes, 0);
            lemma_forgotten(state, writes, 0);
            match node_under(scope, span) {
                Some(syntax) => {
                    lemma_after_collections(scope, syntax, cleared, results);
                    let called = after_collections(scope, syntax, cleared, results);
                    lemma_after_outputs(scope, syntax, called, results, mutations);
                    let after = after_outputs(scope, syntax, called, results, mutations);
                    let updates = node_assignments(scope, syntax, writes, state, results);
                    assert(updates_in(updates, state.dom())) by {
                        match (
                            kind_of(syntax.kind@),
                            part(syntax, "left"@),
                            part(syntax, "right"@),
                        ) {
                            (NodeKind::Assignment, Some(left), Some(right)) => {
                                let j = field_from(syntax.children@, "left"@, 0);
                                lemma_reads_child(scope, syntax, 0, state.dom(), j);
                                let value = value_of(
                                    scope,
                                    right,
                                    state,
                                    results,
                                    MAX_VALUE_DEPTH as nat,
                                );
                                lemma_assignments(scope, left, value, writes, state.dom());
                            },
                            _ => {},
                        }
                    }
                    lemma_assigned(after, state, updates, 0);
                },
                None => {},
            }
        },
        None => {},
    }
}

/// No node of a graph changes which locals a state lists, where each node writes, reads and
/// defines only those.
pub proof fn graph_keeps_locals(
    scope: ScopeView,
    graph: FlowGraph,
    results: Map<Seq<char>, Callable>,
    mutations: Map<Seq<char>, Seq<Option<Callable>>>,
    locals: Set<LocalRef>,
)
    requires
        forall|i: int|
            0 <= i < graph.nodes@.len() ==> node_within(scope, #[trigger] graph.nodes@[i], locals),
    ensures
        keeps_locals(scope, graph, results, mutations, locals),
{
    assert forall|i: int, s: Map<LocalRef, Callable>|
        0 <= i < graph.nodes@.len() && s.dom() == locals implies #[trigger] transferred(
        scope,
        graph.nodes@[i],
        s,
        results,
        mutations,
    ).dom() == locals by {
        node_keeps_locals(scope, graph.nodes@[i], s, results, mutations);
    }
}

/// The locals that a callable lists when it starts: those of its graph, its parameters and what
/// it captures.
pub open spec fn starting_locals(definition: DefinitionView) -> Set<LocalRef> {
    definition.graph.locals@.to_set().union(definition.parameters.to_set()).union(
        definition.captures.to_set(),
    )
}

/// What a list holds from a position on: the item there, and what it holds behind it.
proof fn lemma_rest(items: Seq<LocalRef>, i: int)
    requires
        0 <= i < items.len(),
    ensures
        items.skip(i).to_set() == items.skip(i + 1).to_set().insert(items[i]),
{
    let all = items.skip(i);
    let rest = items.skip(i + 1);
    assert forall|k: LocalRef| all.contains(k) <==> rest.contains(k) || k == items[i] by {
        if all.contains(k) && k != items[i] {
            let j = choose|j: int| 0 <= j < all.len() && all[j] == k;
            assert(rest[j - 1] == k);
        }
        if rest.contains(k) {
            let j = choose|j: int| 0 <= j < rest.len() && rest[j] == k;
            assert(all[j + 1] == k);
        }
        assert(all[0] == items[i]);
    }
    assert(all.to_set() =~= rest.to_set().insert(items[i]));
}

proof fn lemma_forgotten_lists(state: Map<LocalRef, Callable>, locals: Seq<LocalRef>, i: int)
    requires
        0 <= i <= locals.len(),
    ensures
        forgotten_from(state, locals, i).dom() == state.dom().union(locals.skip(i).to_set()),
    decreases locals.len() - i,
{
    let after = forgotten_from(state, locals, i);
    if i < locals.len() {
        let next = state.insert(locals[i], unknown());
        lemma_rest(locals, i);
        lemma_forgotten_lists(next, locals, i + 1);
    }
    assert(after.dom() =~= state.dom().union(locals.skip(i).to_set()));
}

proof fn lemma_parameters_list(
    parameters: Seq<LocalRef>,
    values: Option<Seq<Option<Callable>>>,
    external: bool,
    i: int,
    state: Map<LocalRef, Callable>,
)
    requires
        0 <= i <= parameters.len(),
    ensures
        parameters_from(parameters, values, external, i, state).dom() == state.dom().union(
            parameters.skip(i).to_set(),
        ),
    decreases parameters.len() - i,
{
    let after = parameters_from(parameters, values, external, i, state);
    if i < parameters.len() {
        let next = state.insert(parameters[i], parameter_value(values, i, external));
        lemma_rest(parameters, i);
        lemma_parameters_list(parameters, values, external, i + 1, next);
    }
    assert(after.dom() =~= state.dom().union(parameters.skip(i).to_set()));
}

proof fn lemma_captures_list(
    captures: Seq<LocalRef>,
    values: Map<LocalRef, Callable>,
    external: bool,
    i: int,
    state: Map<LocalRef, Callable>,
)
    requires
        0 <= i <= captures.len(),
    ensures
        captures_from(captures, values, external, i, state).dom() == state.dom().union(
            captures.skip(i).to_set(),
        ),
    decreases captures.len() - i,
{
    let after = captures_from(captures, values, external, i, state);
    if i < captures.len() {
        let next = state.insert(captures[i], captured(values, captures[i], external));
        lemma_rest(captures, i);
        lemma_captures_list(captures, values, external, i + 1, next);
    }
    assert(after.dom() =~= state.dom().union(captures.skip(i).to_set()));
}

/// The state at the start of a callable lists the locals of its graph, its parameters and what it
/// captures.
pub proof fn entry_lists_starting_locals(
    definition: DefinitionView,
    id: Seq<char>,
    summary: SummaryView,
    external: bool,
)
    ensures
        entry_state(definition, id, summary, external).dom() == starting_locals(definition),
{
    let locals = definition.graph.locals@;
    let values = entry(summary.parameters, id);
    let captures = captures_of(summary.captures, id);
    let first = forgotten_from(Map::empty(), locals, 0);
    let second = parameters_from(definition.parameters, values, external, 0, first);
    lemma_forgotten_lists(Map::empty(), locals, 0);
    lemma_parameters_list(definition.parameters, values, external, 0, first);
    lemma_captures_list(definition.captures, captures, external, 0, second);
    assert(locals.skip(0) =~= locals);
    assert(definition.parameters.skip(0) =~= definition.parameters);
    assert(definition.captures.skip(0) =~= definition.captures);
    assert(entry_state(definition, id, summary, external).dom() =~= starting_locals(definition));
}

/// When the states of a callable have settled, each edge of its graph has been followed: the
/// entry covers the values that the callable starts with, and the end of every edge that leaves a
/// reached node covers what flows along it. The nodes write, read and define only locals of the
/// graph, parameters and captures.
pub proof fn definition_states_are_settled(
    program: ProgramView,
    id: Seq<char>,
    summary: SummaryView,
    external: bool,
)
    requires
        program.definitions.contains_key(id),
        graph_ok(program.definitions[id].graph),
        forall|i: int|
            0 <= i < program.definitions[id].graph.nodes@.len() ==> node_within(
                scope_in(program, program.definitions[id].file),
                #[trigger] program.definitions[id].graph.nodes@[i],
                starting_locals(program.definitions[id]),
            ),
    ensures
        definition_states(program, id, summary, external) matches Some(states) ==> {
            let definition = program.definitions[id];
            &&& states.len() == definition.graph.nodes@.len()
            &&& states[definition.graph.entry as int] matches Some(state) && state_covers(
                state,
                entry_state(definition, id, summary, external),
            )
            &&& forall|node: int|
                0 <= node < definition.graph.nodes@.len() ==> #[trigger] node_settled(
                    scope_in(program, definition.file),
                    definition.graph,
                    summary.results,
                    summary.mutations,
                    states,
                    node,
                )
        },
{
    let definition = program.definitions[id];
    let scope = scope_in(program, definition.file);
    let initial = entry_state(definition, id, summary, external);
    entry_lists_starting_locals(definition, id, summary, external);
    graph_keeps_locals(
        scope,
        definition.graph,
        summary.results,
        summary.mutations,
        starting_locals(definition),
    );
    states_are_settled(scope, definition.graph, summary.results, summary.mutations, initial);
}

} // verus!
