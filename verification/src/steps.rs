//! Laws of what a step of a program does to the locals.
use crate::effects::{
    after_call, after_collections, after_collections_from, after_outputs, after_outputs_from,
    after_outputs_of, declared, declared_from, forgotten_from, last_store_is_held, node_assignments,
    outputs_from, takes_apart, transferred, update_from, updated_from, updates_from, UpdateView,
};
use crate::evaluate::{cell_of, held, stored, value_of, MAX_VALUE_DEPTH};
use crate::flow::FlowNode;
use crate::ids::{LocalRef, Resolved, Span};
use crate::lattice::{
    member_of, only, unknown, with_choice, with_dynamic, with_popped, with_pushed, Callable,
};
use crate::methods::{arguments_of, expressions, key_of, receiver_of};
use crate::scope::{
    collection_at, direct_target, node_under, place, CollectionKind, PathView, ScopeView,
};
use crate::syntax::{kinds_go_by_text, lemma_named, named, part, text_of, SyntaxNode};
use crate::tables::{ascending, lemma_ascending};
use crate::values::locals_have_their_value;
use crate::words::methods_go_by_name;
use vstd::prelude::*;

verus! {

/// A name stands for a local.
pub open spec fn names_a_local(scope: ScopeView, node: SyntaxNode, x: LocalRef) -> bool {
    &&& node.kind@ == "identifier"@
    &&& scope.names.resolved.contains_key(place(scope.file, node))
    &&& scope.names.resolved[place(scope.file, node)] == Resolved::Local(x)
}

/// A local is declared at a node.
pub open spec fn declares_local(scope: ScopeView, node: SyntaxNode, x: LocalRef) -> bool {
    &&& scope.names.defined.contains_key(place(scope.file, node))
    &&& scope.names.defined[place(scope.file, node)] == x
}

/// The left of an assignment is a local as a whole: its name, its declaration, or a declaration
/// around it that takes nothing apart.
pub open spec fn is_target(scope: ScopeView, left: SyntaxNode, x: LocalRef) -> bool {
    ||| names_a_local(scope, left, x)
    ||| left.kind@ == "var_declaration_lhs"@ && declares_local(scope, left, x)
    ||| left.kind@ == "var_declaration_lhs"@ && !scope.names.defined.contains_key(
        place(scope.file, left),
    ) && named(left).len() == 1 && !takes_apart(left) && declares_local(scope, named(left)[0], x)
}

proof fn lemma_declared_alone(scope: ScopeView, left: SyntaxNode, x: LocalRef, value: Callable)
    requires
        !scope.names.defined.contains_key(place(scope.file, left)),
        named(left).len() == 1,
        !takes_apart(left),
        declares_local(scope, named(left)[0], x),
    ensures
        declared(scope, left, value) == seq![
            UpdateView { path: PathView { root: x, members: Seq::empty() }, value },
        ],
{
    let one = declared(scope, named(left)[0], value);
    assert(one == seq![
        UpdateView { path: PathView { root: x, members: Seq::empty() }, value },
    ]);
    reveal_with_fuel(declared_from, 2);
    assert(Seq::<UpdateView>::empty() + one =~= one);
    assert(declared_from(scope, left, 0, value, Seq::empty()) == one);
}

/// Behind an assignment to a local the local holds the value of the expression on the right,
/// as it stood before the assignment.
pub proof fn assigned_locals_hold_their_value(
    scope: ScopeView,
    node: FlowNode,
    span: Span,
    syntax: SyntaxNode,
    left: SyntaxNode,
    right: SyntaxNode,
    x: LocalRef,
    state: Map<LocalRef, Callable>,
    results: Map<Seq<char>, Callable>,
    mutations: Map<Seq<char>, Seq<Option<Callable>>>,
)
    requires
        node.span == Some(span),
        node_under(scope, span) == Some(syntax),
        syntax.kind@ == "assignment"@,
        part(syntax, "left"@) == Some(left),
        part(syntax, "right"@) == Some(right),
        is_target(scope, left, x),
    ensures
        transferred(scope, node, state, results, mutations).contains_key(x),
        transferred(scope, node, state, results, mutations)[x] == value_of(
            scope,
            right,
            state,
            results,
            MAX_VALUE_DEPTH as nat,
        ),
{
    kinds_go_by_text(syntax.kind@);
    kinds_go_by_text(left.kind@);
    let value = value_of(scope, right, state, results, MAX_VALUE_DEPTH as nat);
    if !names_a_local(scope, left, x) && !declares_local(scope, left, x) {
        lemma_declared_alone(scope, left, x, value);
    }
    let updates = node_assignments(scope, syntax, node.writes@, state, results);
    let update = UpdateView { path: PathView { root: x, members: Seq::empty() }, value };
    assert(updates =~= seq![update]);
    let cleared = forgotten_from(state, node.writes@, 0);
    let before = after_outputs(
        scope,
        syntax,
        after_collections(scope, syntax, cleared, results),
        results,
        mutations,
    );
    last_store_is_held(before, state, updates, 0);
}

pub proof fn lemma_forgotten(
    state: Map<LocalRef, Callable>,
    locals: Seq<LocalRef>,
    i: int,
    x: LocalRef,
)
    requires
        0 <= i <= locals.len(),
    ensures
        ({
            let after = forgotten_from(state, locals, i);
            if exists|k: int| i <= k < locals.len() && #[trigger] locals[k] == x {
                after.contains_key(x) && after[x] == unknown()
            } else {
                after.contains_key(x) == state.contains_key(x) && after[x] == state[x]
            }
        }),
    decreases locals.len() - i,
{
    if i < locals.len() {
        let next = state.insert(locals[i], unknown());
        lemma_forgotten(next, locals, i + 1, x);
        if exists|k: int| i <= k < locals.len() && #[trigger] locals[k] == x {
            let k = choose|k: int| i <= k < locals.len() && #[trigger] locals[k] == x;
            if k > i {
                assert(i + 1 <= k < locals.len() && locals[k] == x);
            }
        }
    }
}

/// No call stands in an expression outside the lambdas in it.
pub open spec fn is_free_of_calls(node: SyntaxNode) -> bool
    decreases node,
{
    ||| node.kind@ == "lambda_expression"@
    ||| node.kind@ != "function_call"@ && forall|k: int|
        0 <= k < node.children@.len() && (#[trigger] node.children@[k]).named ==> is_free_of_calls(
            node.children@[k],
        )
}

proof fn lemma_free_children(node: SyntaxNode, i: int)
    requires
        is_free_of_calls(node),
        node.kind@ != "lambda_expression"@,
        0 <= i < named(node).len(),
    ensures
        is_free_of_calls(named(node)[i]),
{
    let keep = |c: SyntaxNode| c.named;
    assert(named(node).contains(named(node)[i]));
    node.children@.lemma_filter_contains_rev(keep, named(node)[i]);
    let j = choose|j: int| 0 <= j < node.children@.len() && node.children@[j] == named(node)[i];
    assert(keep(named(node)[i])) by {
        node.children@.lemma_filter_pred(keep, i);
    }
    assert(node.children@[j].named);
}

proof fn lemma_no_calls(
    scope: ScopeView,
    node: SyntaxNode,
    state: Map<LocalRef, Callable>,
    results: Map<Seq<char>, Callable>,
    mutations: Map<Seq<char>, Seq<Option<Callable>>>,
)
    requires
        is_free_of_calls(node),
    ensures
        after_collections(scope, node, state, results) == state,
        after_outputs(scope, node, state, results, mutations) == state,
    decreases node, named(node).len() + 1,
{
    kinds_go_by_text(node.kind@);
    if node.kind@ != "lambda_expression"@ {
        assert forall|k: int| 0 <= k < named(node).len() implies is_free_of_calls(
            #[trigger] named(node)[k],
        ) by {
            lemma_free_children(node, k);
        }
        lemma_no_calls_from(scope, node, 0, state, results, mutations);
    }
}

proof fn lemma_no_calls_from(
    scope: ScopeView,
    node: SyntaxNode,
    i: int,
    state: Map<LocalRef, Callable>,
    results: Map<Seq<char>, Callable>,
    mutations: Map<Seq<char>, Seq<Option<Callable>>>,
)
    requires
        0 <= i,
        forall|k: int|
            i <= k < named(node).len() ==> is_free_of_calls(#[trigger] named(node)[k]),
    ensures
        after_collections_from(scope, node, i, state, results) == state,
        after_outputs_from(scope, node, i, state, results, mutations) == state,
    decreases node, named(node).len() - i,
{
    if i < named(node).len() {
        lemma_named(node, i);
        lemma_no_calls(scope, named(node)[i], state, results, mutations);
        lemma_no_calls_from(scope, node, i + 1, state, results, mutations);
    }
}

/// A step without calls that assigns nothing forgets the locals that it writes, and leaves the
/// others. One that has no place in the source leaves them all.
pub proof fn written_locals_are_forgotten(
    scope: ScopeView,
    node: FlowNode,
    x: LocalRef,
    state: Map<LocalRef, Callable>,
    results: Map<Seq<char>, Callable>,
    mutations: Map<Seq<char>, Seq<Option<Callable>>>,
)
    requires
        node.span matches Some(span) ==> (node_under(scope, span) matches Some(syntax) ==> (
        syntax.kind@ != "assignment"@ && is_free_of_calls(syntax))),
    ensures
        ({
            let after = transferred(scope, node, state, results, mutations);
            if node.span is Some && node.writes@.contains(x) {
                after.contains_key(x) && after[x] == unknown()
            } else {
                after.contains_key(x) == state.contains_key(x) && after[x] == state[x]
            }
        }),
{
    match node.span {
        Some(span) => {
            let cleared = forgotten_from(state, node.writes@, 0);
            lemma_forgotten(state, node.writes@, 0, x);
            match node_under(scope, span) {
                Some(syntax) => {
                    kinds_go_by_text(syntax.kind@);
                    lemma_no_calls(scope, syntax, cleared, results, mutations);
                },
                None => {},
            }
        },
        None => {},
    }
}

proof fn lemma_one_part(
    scope: ScopeView,
    node: SyntaxNode,
    i: int,
    at: int,
    state: Map<LocalRef, Callable>,
    results: Map<Seq<char>, Callable>,
    mutations: Map<Seq<char>, Seq<Option<Callable>>>,
)
    requires
        0 <= i <= at < named(node).len(),
        forall|k: int|
            0 <= k < named(node).len() && k != at ==> is_free_of_calls(#[trigger] named(node)[k]),
    ensures
        after_collections_from(scope, node, i, state, results) == after_collections(
            scope,
            named(node)[at],
            state,
            results,
        ),
        after_outputs_from(scope, node, i, state, results, mutations) == after_outputs(
            scope,
            named(node)[at],
            state,
            results,
            mutations,
        ),
    decreases at - i,
{
    lemma_named(node, i);
    if i < at {
        lemma_no_calls(scope, named(node)[i], state, results, mutations);
        lemma_one_part(scope, node, i + 1, at, state, results, mutations);
    } else {
        let first = after_collections(scope, named(node)[at], state, results);
        let second = after_outputs(scope, named(node)[at], state, results, mutations);
        lemma_no_calls_from(scope, node, i + 1, first, results, mutations);
        lemma_no_calls_from(scope, node, i + 1, second, results, mutations);
    }
}

/// What the calls in one part of an expression do, the expression does, whatever its kind; and
/// where it is a call itself, its own effect comes behind that.
pub proof fn calls_take_effect_in_order(
    scope: ScopeView,
    node: SyntaxNode,
    at: int,
    state: Map<LocalRef, Callable>,
    results: Map<Seq<char>, Callable>,
    mutations: Map<Seq<char>, Seq<Option<Callable>>>,
)
    requires
        node.kind@ != "lambda_expression"@,
        0 <= at < named(node).len(),
        forall|k: int|
            0 <= k < named(node).len() && k != at ==> is_free_of_calls(#[trigger] named(node)[k]),
    ensures
        ({
            let first = after_collections(scope, named(node)[at], state, results);
            let second = after_outputs(scope, named(node)[at], state, results, mutations);
            if node.kind@ == "function_call"@ {
                &&& after_collections(scope, node, state, results) == after_call(
                    scope,
                    node,
                    first,
                    results,
                )
                &&& after_outputs(scope, node, state, results, mutations) == after_outputs_of(
                    scope,
                    node,
                    second,
                    results,
                    mutations,
                )
            } else {
                &&& after_collections(scope, node, state, results) == first
                &&& after_outputs(scope, node, state, results, mutations) == second
            }
        }),
{
    kinds_go_by_text(node.kind@);
    lemma_one_part(scope, node, 0, at, state, results, mutations);
}

proof fn lemma_expressions(items: Seq<SyntaxNode>, values: Seq<SyntaxNode>)
    requires
        items.len() == values.len(),
        forall|k: int|
            0 <= k < items.len() ==> part(#[trigger] items[k], "expr"@) == Some(values[k]),
    ensures
        expressions(items) == values,
    decreases items.len(),
{
    if items.len() > 0 {
        lemma_expressions(items.drop_last(), values.drop_last());
        assert(part(items[items.len() - 1], "expr"@) == Some(values.last()));
        assert(values.drop_last().push(values.last()) =~= values);
    } else {
        assert(values =~= Seq::empty());
    }
}

/// A call passes expressions, in their order.
pub open spec fn passes(call: SyntaxNode, values: Seq<SyntaxNode>) -> bool {
    part(call, "arguments"@) matches Some(list) && named(list).len() == values.len() && forall|
        k: int,
    |
        0 <= k < values.len() ==> part(#[trigger] named(list)[k], "expr"@) == Some(values[k])
}

/// The arguments of a call are those that it passes.
pub proof fn arguments_are_in_order(call: SyntaxNode, values: Seq<SyntaxNode>)
    requires
        passes(call, values),
    ensures
        arguments_of(call) == values,
{
    lemma_expressions(named(part(call, "arguments"@)->Some_0), values);
}

/// A call calls a method on a local that is a collection.
pub open spec fn calls_on(
    scope: ScopeView,
    call: SyntaxNode,
    x: LocalRef,
    kind: CollectionKind,
    name: Seq<char>,
) -> bool {
    &&& part(call, "callee"@) matches Some(callee) && callee.kind@ == "dot_access"@ && (part(
        callee,
        "obj"@,
    ) matches Some(object) && names_a_local(scope, object, x) && collection_at(scope, object)
        == Some(kind)) && (part(callee, "field"@) matches Some(field) && text_of(
        scope.source,
        field,
    ) == Some(name))
}

/// A collection after a value may have been stored under a key.
pub open spec fn maybe_stored(
    scope: ScopeView,
    collection: Callable,
    key: SyntaxNode,
    value: Callable,
) -> Callable {
    match key_of(scope, key) {
        Some(name) => with_choice(collection, name, value),
        None => with_dynamic(collection, value),
    }
}

/// The methods that change a collection, with what each makes of it. An array takes the value
/// first and then the index, a map the key first and then the value.
pub proof fn methods_change_their_collection(
    scope: ScopeView,
    call: SyntaxNode,
    x: LocalRef,
    kind: CollectionKind,
    name: Seq<char>,
    values: Seq<SyntaxNode>,
    state: Map<LocalRef, Callable>,
    results: Map<Seq<char>, Callable>,
)
    requires
        calls_on(scope, call, x, kind, name),
        passes(call, values),
    ensures
        ({
            let depth = MAX_VALUE_DEPTH as nat;
            let old_value = held(state, x);
            let after = after_call(scope, call, state, results);
            let first = value_of(scope, values[0], state, results, depth);
            let second = value_of(scope, values[1], state, results, depth);
            &&& forall|y: LocalRef| y != x ==> #[trigger] after.contains_key(y)
                == state.contains_key(y)
            &&& forall|y: LocalRef| y != x ==> #[trigger] after[y] == state[y]
            &&& kind is Array && name == "push"@ && values.len() > 0 ==> after.contains_key(x)
                && after[x] == with_pushed(old_value, first)
            &&& kind is Array && name == "set"@ && values.len() > 1 ==> after.contains_key(x)
                && after[x] == stored(scope, old_value, values[1], first)
            &&& kind is Array && name == "pop"@ ==> after.contains_key(x) && after[x]
                == with_popped(old_value)
            &&& kind is Mapping && (name == "set"@ || name == "setAndGetPrevious"@)
                && values.len() > 1 ==> after.contains_key(x) && after[x] == stored(
                scope,
                old_value,
                values[0],
                second,
            )
            &&& kind is Mapping && (name == "replaceIfExists"@ || name == "addIfNotExists"@ || name
                == "replaceAndGetPrevious"@ || name == "addOrGetExisting"@) && values.len() > 1
                ==> after.contains_key(x) && after[x] == maybe_stored(
                scope,
                old_value,
                values[0],
                second,
            )
            &&& kind is List && name == "prependHead"@ && values.len() > 0 ==> after.contains_key(
                x,
            ) && after[x] == cell_of(first, old_value)
            &&& kind is List && name == "popHead"@ ==> after.contains_key(x) && after[x]
                == member_of(old_value, "1"@)
        }),
{
    let callee = part(call, "callee"@)->Some_0;
    let object = part(callee, "obj"@)->Some_0;
    kinds_go_by_text(callee.kind@);
    kinds_go_by_text(object.kind@);
    methods_go_by_name(name);
    arguments_are_in_order(call, values);
    locals_have_their_value(
        scope,
        object,
        x,
        state,
        results,
        MAX_VALUE_DEPTH as nat,
    );
}

proof fn lemma_one_output(
    scope: ScopeView,
    values: Seq<SyntaxNode>,
    outputs: Seq<Option<Callable>>,
    i: int,
    k: int,
    x: LocalRef,
    acc: Seq<UpdateView>,
)
    requires
        0 <= i <= values.len(),
        0 <= k < values.len() && k < outputs.len(),
        names_a_local(scope, values[k], x),
        outputs[k] matches Some(v) && !v.bottom,
        forall|j: int| 0 <= j < outputs.len() && j != k ==> #[trigger] outputs[j] is None,
        i <= k ==> acc.len() == 0,
    ensures
        outputs_from(scope, values, outputs, i, acc) == if i <= k {
            seq![
                UpdateView {
                    path: PathView { root: x, members: Seq::empty() },
                    value: outputs[k]->Some_0,
                },
            ]
        } else {
            acc
        },
    decreases values.len() - i,
{
    kinds_go_by_text(values[k].kind@);
    if i < values.len() && i < outputs.len() {
        if i == k {
            let one = seq![
                UpdateView {
                    path: PathView { root: x, members: Seq::empty() },
                    value: outputs[k]->Some_0,
                },
            ];
            assert(acc.push(one[0]) =~= one);
            assert(update_from(acc, one[0].path, 0) == -1);
            lemma_one_output(scope, values, outputs, i + 1, k, x, one);
        } else {
            assert(outputs[i] is None);
            lemma_one_output(scope, values, outputs, i + 1, k, x, acc);
        }
    }
}

/// Behind a call of a known callable, the local that was passed for a parameter that the callable
/// mutates holds what the callable leaves in that parameter, and the other locals stay. A
/// callable with one parameter more than the call passes takes the receiver as its first.
pub proof fn mutated_locals_hold_their_output(
    scope: ScopeView,
    call: SyntaxNode,
    callee: SyntaxNode,
    id: Seq<char>,
    values: Seq<SyntaxNode>,
    k: int,
    x: LocalRef,
    state: Map<LocalRef, Callable>,
    results: Map<Seq<char>, Callable>,
    mutations: Map<Seq<char>, Seq<Option<Callable>>>,
)
    requires
        part(call, "callee"@) == Some(callee),
        direct_target(scope, callee) == Some(id),
        mutations.contains_key(id),
        mutations[id].len() == values.len(),
        ({
            ||| receiver_of(call) is None && passes(call, values)
            ||| receiver_of(call) is Some && passes(call, values)
            ||| receiver_of(call) matches Some(object) && values.len() > 0 && object == values[0]
                && passes(call, values.drop_first())
        }),
        0 <= k < values.len(),
        names_a_local(scope, values[k], x),
        mutations[id][k] matches Some(v) && !v.bottom,
        forall|j: int|
            0 <= j < mutations[id].len() && j != k ==> #[trigger] mutations[id][j] is None,
    ensures
        ({
            let after = after_outputs_of(scope, call, state, results, mutations);
            &&& after.contains_key(x)
            &&& Some(after[x]) == mutations[id][k]
            &&& forall|y: LocalRef| y != x ==> #[trigger] after.contains_key(y)
                == state.contains_key(y)
            &&& forall|y: LocalRef| y != x ==> #[trigger] after[y] == state[y]
        }),
{
    let outputs = mutations[id];
    if passes(call, values) {
        arguments_are_in_order(call, values);
    } else {
        arguments_are_in_order(call, values.drop_first());
        assert(seq![values[0]] + values.drop_first() =~= values);
    }
    let targets = only(id).targets;
    assert(targets =~= set![id]);
    lemma_ascending::<String>(targets);
    let order = ascending::<String>(targets);
    assert(order =~= seq![id]) by {
        assert(order.to_set().contains(id));
        let at = choose|at: int| 0 <= at < order.len() && order[at] == id;
        assert forall|j: int| 0 <= j < order.len() implies order[j] == id by {
            assert(order.to_set().contains(order[j]));
        }
        if order.len() > 1 {
            assert(order[0] == order[1]);
        }
    }
    lemma_one_output(scope, values, outputs, 0, k, x, Seq::empty());
    reveal_with_fuel(updates_from, 2);
    reveal_with_fuel(updated_from, 2);
    let updates = updates_from(scope, call, order, mutations, 0, Seq::empty());
    assert(updates == outputs_from(scope, values, outputs, 0, Seq::empty()));
}

} // verus!
