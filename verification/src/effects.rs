//! What evaluating an expression does to the values of locals.
use crate::callable::{int_text, merged_callable_value, CallableValue};
use crate::evaluate::{cell_of, held, nth, stored, value_of, Returns, State, MAX_VALUE_DEPTH};
use crate::flow::FlowNode;
use crate::ids::LocalRef;
use crate::lattice::{
    int_key, join, member_of, only, unknown, with_choice, with_dynamic, with_path, with_popped,
    with_pushed, Callable,
};
use crate::methods::{
    arguments_of, classify_method, key_of, method_field_of, method_of, pointees, receiver_of,
    Method,
};
use crate::scope::{
    collection_at, defined_at, direct_target, local_path, node_under, CollectionKind, LocalPath,
    PathView, Scope, ScopeView,
};
use crate::syntax::{kind_of, lemma_named, named, part, text_of, NodeKind, SyntaxNode};
use crate::tables::{ascending, Table, Value};
use crate::text::{decimal, decimal_text, opt_view, same_text, views};
use vstd::prelude::*;
use vstd::string::*;

verus! {

broadcast use crate::text::group_views;

/// One optional value per parameter.
#[derive(Debug)]
pub struct Slots {
    pub items: Vec<Option<CallableValue>>,
}

pub open spec fn slot_views(items: Seq<Option<CallableValue>>) -> Seq<Option<Callable>> {
    Seq::new(items.len(), |i: int| opt_view(items[i]))
}

impl View for Slots {
    type V = Seq<Option<Callable>>;

    open spec fn view(&self) -> Seq<Option<Callable>> {
        slot_views(self.items@)
    }
}

impl Value for Slots {
    fn duplicate(&self) -> (r: Self) {
        let n: usize = self.items.len();
        let mut items: Vec<Option<CallableValue>> = Vec::new();
        let mut i: usize = 0;
        while i < n
            invariant
                i <= n,
                n == self.items@.len(),
                items@.len() == i,
                forall|j: int| 0 <= j < i ==> opt_view(#[trigger] items@[j]) == self@[j],
            decreases n - i,
        {
            let item = match &self.items[i] {
                Some(value) => Some(value.clone()),
                None => None,
            };
            items.push(item);
            i += 1;
        }
        let r = Slots { items };
        assert(r@ =~= self@);
        r
    }

    fn same_value(&self, other: &Self) -> (r: bool) {
        let n: usize = self.items.len();
        if n != other.items.len() {
            assert(self@.len() != other@.len());
            return false;
        }
        let mut i: usize = 0;
        while i < n
            invariant
                i <= n,
                n == self.items@.len(),
                n == other.items@.len(),
                forall|j: int| 0 <= j < i ==> #[trigger] self@[j] == other@[j],
            decreases n - i,
        {
            let equal = match (&self.items[i], &other.items[i]) {
                (Some(left), Some(right)) => left.same(right),
                (None, None) => true,
                _ => false,
            };
            if !equal {
                assert(self@[i as int] != other@[i as int]);
                return false;
            }
            assert(self@[i as int] == other@[i as int]);
            i += 1;
        }
        assert(self@ =~= other@);
        true
    }
}

/// What callables leave in the parameters that they mutate.
pub type Mutations = Table<String, Slots>;

/// The state after a value was stored at a path.
pub open spec fn written(
    state: Map<LocalRef, Callable>,
    path: PathView,
    value: Callable,
) -> Map<LocalRef, Callable> {
    state.insert(path.root, with_path(held(state, path.root), path.members, value))
}

/// A collection after a call of one of its methods, where the method changes it.
pub open spec fn changed_collection(
    scope: ScopeView,
    kind: CollectionKind,
    method: Method,
    arguments: Seq<SyntaxNode>,
    collection: Callable,
    state: Map<LocalRef, Callable>,
    results: Map<Seq<char>, Callable>,
) -> Option<Callable> {
    let value_at = |node: SyntaxNode|
        value_of(scope, node, state, results, MAX_VALUE_DEPTH as nat);
    match (kind, method, nth(arguments, 0), nth(arguments, 1)) {
        (CollectionKind::Array, Method::Push, Some(value), _) => Some(
            with_pushed(collection, value_at(value)),
        ),
        (CollectionKind::Array, Method::Store, Some(value), Some(index)) => Some(
            stored(scope, collection, index, value_at(value)),
        ),
        (CollectionKind::Array, Method::Pop, _, _) => Some(with_popped(collection)),
        (
            CollectionKind::Mapping,
            Method::Store | Method::StoreAndGet,
            Some(key),
            Some(value),
        ) => Some(stored(scope, collection, key, value_at(value))),
        (
            CollectionKind::Mapping,
            Method::StoreIf | Method::StoreIfAndGet,
            Some(key),
            Some(value),
        ) => Some(
            match key_of(scope, key) {
                Some(name) => with_choice(collection, name, value_at(value)),
                None => with_dynamic(collection, value_at(value)),
            },
        ),
        (CollectionKind::Mapping, Method::Delete | Method::DeleteAndGet, Some(key), _) => match key_of(
            scope,
            key,
        ) {
            Some(name) => Some(Callable { members: collection.members.remove(name), ..collection }),
            None => None,
        },
        (CollectionKind::List, Method::PrependHead, Some(head), _) => Some(
            cell_of(value_at(head), collection),
        ),
        (CollectionKind::List, Method::PopHead, _, _) => Some(member_of(collection, "1"@)),
        _ => None,
    }
}

/// The state after one call changed the collection of which it calls a method.
pub open spec fn after_call(
    scope: ScopeView,
    call: SyntaxNode,
    state: Map<LocalRef, Callable>,
    results: Map<Seq<char>, Callable>,
) -> Map<LocalRef, Callable> {
    match (receiver_of(call), method_field_of(call)) {
        (Some(receiver), Some(field)) => match (
            collection_at(scope, receiver),
            text_of(scope.source, field),
            local_path(scope, receiver, None),
        ) {
            (Some(kind), Some(name), Some(path)) => match changed_collection(
                scope,
                kind,
                method_of(name),
                arguments_of(call),
                value_of(scope, receiver, state, results, MAX_VALUE_DEPTH as nat),
                state,
                results,
            ) {
                Some(collection) => written(state, path, collection),
                None => state,
            },
            _ => state,
        },
        _ => state,
    }
}

/// The state after the calls in an expression changed their collections, inner calls first.
/// The bodies of lambdas do not run.
pub open spec fn after_collections(
    scope: ScopeView,
    node: SyntaxNode,
    state: Map<LocalRef, Callable>,
    results: Map<Seq<char>, Callable>,
) -> Map<LocalRef, Callable>
    decreases node, named(node).len() + 1,
{
    match kind_of(node.kind@) {
        NodeKind::Lambda => state,
        NodeKind::Call => after_call(
            scope,
            node,
            after_collections_from(scope, node, 0, state, results),
            results,
        ),
        _ => after_collections_from(scope, node, 0, state, results),
    }
}

pub open spec fn after_collections_from(
    scope: ScopeView,
    node: SyntaxNode,
    i: int,
    state: Map<LocalRef, Callable>,
    results: Map<Seq<char>, Callable>,
) -> Map<LocalRef, Callable>
    decreases node, named(node).len() - i,
{
    if 0 <= i < named(node).len() {
        proof {
            lemma_named(node, i);
        }
        after_collections_from(
            scope,
            node,
            i + 1,
            after_collections(scope, named(node)[i], state, results),
            results,
        )
    } else {
        state
    }
}

/// What a call may call.
pub open spec fn called_value(
    scope: ScopeView,
    callee: SyntaxNode,
    state: Map<LocalRef, Callable>,
    results: Map<Seq<char>, Callable>,
) -> Callable {
    match direct_target(scope, callee) {
        Some(target) => only(target),
        None => value_of(scope, callee, state, results, MAX_VALUE_DEPTH as nat),
    }
}

/// A value to be stored at a path.
#[verifier::ext_equal]
pub struct UpdateView {
    pub path: PathView,
    pub value: Callable,
}

/// A value to be stored at a path.
#[derive(Debug)]
pub struct Update {
    pub path: LocalPath,
    pub value: CallableValue,
}

impl View for Update {
    type V = UpdateView;

    open spec fn view(&self) -> UpdateView {
        UpdateView { path: self.path@, value: self.value@ }
    }
}

/// The first update from position `i` on that stores at a path.
pub open spec fn update_from(updates: Seq<UpdateView>, path: PathView, i: int) -> int
    decreases updates.len() - i,
{
    if 0 <= i < updates.len() {
        if updates[i].path == path {
            i
        } else {
            update_from(updates, path, i + 1)
        }
    } else {
        -1
    }
}

/// The updates with one more; values for one path are joined.
pub open spec fn with_update(
    updates: Seq<UpdateView>,
    path: PathView,
    value: Callable,
) -> Seq<UpdateView> {
    let at = update_from(updates, path, 0);
    if 0 <= at < updates.len() {
        updates.update(at, UpdateView { path, value: join(updates[at].value, value) })
    } else {
        updates.push(UpdateView { path, value })
    }
}

/// The arguments of a call as the parameters of a callable receive them: with the receiver in
/// front, where the callable has one parameter more.
pub open spec fn actuals_for(
    receiver: Option<SyntaxNode>,
    arguments: Seq<SyntaxNode>,
    parameters: nat,
) -> Seq<SyntaxNode> {
    match receiver {
        Some(object) => if parameters == arguments.len() + 1 {
            seq![object] + arguments
        } else {
            arguments
        },
        None => arguments,
    }
}

/// The updates with what a callable leaves in the arguments from position `i` on.
pub open spec fn outputs_from(
    scope: ScopeView,
    actuals: Seq<SyntaxNode>,
    outputs: Seq<Option<Callable>>,
    i: int,
    acc: Seq<UpdateView>,
) -> Seq<UpdateView>
    decreases actuals.len() - i,
{
    if 0 <= i < actuals.len() && i < outputs.len() {
        let next = match (outputs[i], local_path(scope, actuals[i], None)) {
            (Some(output), Some(path)) => if output.bottom {
                acc
            } else {
                with_update(acc, path, output)
            },
            _ => acc,
        };
        outputs_from(scope, actuals, outputs, i + 1, next)
    } else {
        acc
    }
}

/// The updates with what the targets from position `i` on leave in the arguments.
pub open spec fn updates_from(
    scope: ScopeView,
    call: SyntaxNode,
    targets: Seq<Seq<char>>,
    mutations: Map<Seq<char>, Seq<Option<Callable>>>,
    i: int,
    acc: Seq<UpdateView>,
) -> Seq<UpdateView>
    decreases targets.len() - i,
{
    if 0 <= i < targets.len() {
        let next = if mutations.contains_key(targets[i]) {
            let outputs = mutations[targets[i]];
            outputs_from(
                scope,
                actuals_for(receiver_of(call), arguments_of(call), outputs.len()),
                outputs,
                0,
                acc,
            )
        } else {
            acc
        };
        updates_from(scope, call, targets, mutations, i + 1, next)
    } else {
        acc
    }
}

/// The state after the updates from position `i` on.
pub open spec fn updated_from(
    state: Map<LocalRef, Callable>,
    updates: Seq<UpdateView>,
    i: int,
) -> Map<LocalRef, Callable>
    decreases updates.len() - i,
{
    if 0 <= i < updates.len() {
        updated_from(written(state, updates[i].path, updates[i].value), updates, i + 1)
    } else {
        state
    }
}

/// The state after one call changed the arguments that its targets mutate.
pub open spec fn after_outputs_of(
    scope: ScopeView,
    call: SyntaxNode,
    state: Map<LocalRef, Callable>,
    results: Map<Seq<char>, Callable>,
    mutations: Map<Seq<char>, Seq<Option<Callable>>>,
) -> Map<LocalRef, Callable> {
    match part(call, "callee"@) {
        Some(callee) => {
            let called = called_value(scope, callee, state, results);
            updated_from(
                state,
                updates_from(
                    scope,
                    call,
                    ascending::<String>(called.targets),
                    mutations,
                    0,
                    Seq::empty(),
                ),
                0,
            )
        },
        None => state,
    }
}

/// The state after the calls in an expression changed the arguments that their targets mutate,
/// inner calls first. The bodies of lambdas do not run.
pub open spec fn after_outputs(
    scope: ScopeView,
    node: SyntaxNode,
    state: Map<LocalRef, Callable>,
    results: Map<Seq<char>, Callable>,
    mutations: Map<Seq<char>, Seq<Option<Callable>>>,
) -> Map<LocalRef, Callable>
    decreases node, named(node).len() + 1,
{
    match kind_of(node.kind@) {
        NodeKind::Lambda => state,
        NodeKind::Call => after_outputs_of(
            scope,
            node,
            after_outputs_from(scope, node, 0, state, results, mutations),
            results,
            mutations,
        ),
        _ => after_outputs_from(scope, node, 0, state, results, mutations),
    }
}

pub open spec fn after_outputs_from(
    scope: ScopeView,
    node: SyntaxNode,
    i: int,
    state: Map<LocalRef, Callable>,
    results: Map<Seq<char>, Callable>,
    mutations: Map<Seq<char>, Seq<Option<Callable>>>,
) -> Map<LocalRef, Callable>
    decreases node, named(node).len() - i,
{
    if 0 <= i < named(node).len() {
        proof {
            lemma_named(node, i);
        }
        after_outputs_from(
            scope,
            node,
            i + 1,
            after_outputs(scope, named(node)[i], state, results, mutations),
            results,
            mutations,
        )
    } else {
        state
    }
}

/// The slot of a tuple or an array at a position.
pub open spec fn slot_at(value: Callable, i: nat) -> Callable {
    member_of(
        value,
        if value.array_lengths is Some {
            int_key(i)
        } else {
            decimal(i)
        },
    )
}

/// A node holds a token of its own.
pub open spec fn has_token(node: SyntaxNode, token: Seq<char>) -> bool {
    exists|i: int|
        0 <= i < node.children@.len() && !(#[trigger] node.children@[i]).named
            && node.children@[i].kind@ == token
}

/// A pattern lists its parts in brackets. Round brackets around a single part only group.
pub open spec fn takes_apart(pattern: SyntaxNode) -> bool {
    has_token(pattern, "["@) || has_token(pattern, "("@) && named(pattern).len() != 1
}

/// The stores that a declaration makes. A pattern in brackets takes the value apart; any other
/// node hands the value on to the nodes below it, up to those that define a local.
pub open spec fn declared(scope: ScopeView, pattern: SyntaxNode, value: Callable) -> Seq<UpdateView>
    decreases pattern, named(pattern).len() + 1,
{
    match defined_at(scope, pattern) {
        Some(root) => seq![
            UpdateView { path: PathView { root, members: Seq::empty() }, value },
        ],
        None => declared_from(scope, pattern, 0, value, Seq::empty()),
    }
}

pub open spec fn declared_from(
    scope: ScopeView,
    pattern: SyntaxNode,
    i: int,
    value: Callable,
    acc: Seq<UpdateView>,
) -> Seq<UpdateView>
    decreases pattern, named(pattern).len() - i,
{
    if 0 <= i < named(pattern).len() {
        proof {
            lemma_named(pattern, i);
        }
        let part = if takes_apart(pattern) {
            slot_at(value, i as nat)
        } else {
            value
        };
        declared_from(
            scope,
            pattern,
            i + 1,
            value,
            acc + declared(scope, named(pattern)[i], part),
        )
    } else {
        acc
    }
}

/// The store at a single target.
pub open spec fn stored_whole(
    scope: ScopeView,
    target: SyntaxNode,
    value: Callable,
    writes: Seq<LocalRef>,
) -> Seq<UpdateView> {
    match local_path(scope, target, Some(writes)) {
        Some(path) => seq![UpdateView { path, value }],
        None => Seq::empty(),
    }
}

/// The stores that an assignment makes. A tuple of targets takes the value apart.
pub open spec fn assignments(
    scope: ScopeView,
    target: SyntaxNode,
    value: Callable,
    writes: Seq<LocalRef>,
) -> Seq<UpdateView>
    decreases target, named(target).len() + 1,
{
    match kind_of(target.kind@) {
        NodeKind::Tensor | NodeKind::TypedTuple => assignments_from(
            scope,
            target,
            0,
            value,
            writes,
            Seq::empty(),
        ),
        NodeKind::Declaration => if declared(scope, target, value).len() > 0 {
            declared(scope, target, value)
        } else {
            stored_whole(scope, target, value, writes)
        },
        _ => stored_whole(scope, target, value, writes),
    }
}

pub open spec fn assignments_from(
    scope: ScopeView,
    target: SyntaxNode,
    i: int,
    value: Callable,
    writes: Seq<LocalRef>,
    acc: Seq<UpdateView>,
) -> Seq<UpdateView>
    decreases target, named(target).len() - i,
{
    if 0 <= i < named(target).len() {
        proof {
            lemma_named(target, i);
        }
        assignments_from(
            scope,
            target,
            i + 1,
            value,
            writes,
            acc + assignments(scope, named(target)[i], slot_at(value, i as nat), writes),
        )
    } else {
        acc
    }
}

/// The state in which the locals from position `i` on hold values of which nothing is known.
pub open spec fn forgotten_from(
    state: Map<LocalRef, Callable>,
    locals: Seq<LocalRef>,
    i: int,
) -> Map<LocalRef, Callable>
    decreases locals.len() - i,
{
    if 0 <= i < locals.len() {
        forgotten_from(state.insert(locals[i], unknown()), locals, i + 1)
    } else {
        state
    }
}

/// The state after the stores of an assignment from position `i` on. What a store changes in a
/// member starts from the value that its root had before the assignment, with the stores
/// already made.
pub open spec fn assigned_from(
    state: Map<LocalRef, Callable>,
    before: Map<LocalRef, Callable>,
    updates: Seq<UpdateView>,
    i: int,
) -> Map<LocalRef, Callable>
    decreases updates.len() - i,
{
    if 0 <= i < updates.len() {
        let next = written(before, updates[i].path, updates[i].value);
        let root = updates[i].path.root;
        assigned_from(state.insert(root, next[root]), next, updates, i + 1)
    } else {
        state
    }
}

/// The stores that the node of a control-flow graph makes as an assignment.
pub open spec fn node_assignments(
    scope: ScopeView,
    syntax: SyntaxNode,
    writes: Seq<LocalRef>,
    state: Map<LocalRef, Callable>,
    results: Map<Seq<char>, Callable>,
) -> Seq<UpdateView> {
    match (kind_of(syntax.kind@), part(syntax, "left"@), part(syntax, "right"@)) {
        (NodeKind::Assignment, Some(left), Some(right)) => assignments(
            scope,
            left,
            value_of(scope, right, state, results, MAX_VALUE_DEPTH as nat),
            writes,
        ),
        _ => Seq::empty(),
    }
}

/// The state behind a node of a control-flow graph.
pub open spec fn transferred(
    scope: ScopeView,
    node: FlowNode,
    state: Map<LocalRef, Callable>,
    results: Map<Seq<char>, Callable>,
    mutations: Map<Seq<char>, Seq<Option<Callable>>>,
) -> Map<LocalRef, Callable> {
    match node.span {
        None => state,
        Some(span) => {
            let cleared = forgotten_from(state, node.writes@, 0);
            match node_under(scope, span) {
                None => cleared,
                Some(syntax) => assigned_from(
                    after_outputs(
                        scope,
                        syntax,
                        after_collections(scope, syntax, cleared, results),
                        results,
                        mutations,
                    ),
                    state,
                    node_assignments(scope, syntax, node.writes@, state, results),
                    0,
                ),
            }
        },
    }
}

proof fn lemma_declared_keeps(
    scope: ScopeView,
    pattern: SyntaxNode,
    i: int,
    value: Callable,
    acc: Seq<UpdateView>,
    u: UpdateView,
)
    requires
        acc.contains(u),
    ensures
        declared_from(scope, pattern, i, value, acc).contains(u),
    decreases named(pattern).len() - i,
{
    if 0 <= i < named(pattern).len() {
        let more = declared(
            scope,
            named(pattern)[i],
            if takes_apart(pattern) {
                slot_at(value, i as nat)
            } else {
                value
            },
        );
        let k = acc.index_of(u);
        assert((acc + more)[k] == u);
        lemma_declared_keeps(scope, pattern, i + 1, value, acc + more, u);
    }
}

proof fn lemma_declared_part(
    scope: ScopeView,
    pattern: SyntaxNode,
    j: int,
    value: Callable,
    acc: Seq<UpdateView>,
    i: int,
    u: UpdateView,
)
    requires
        0 <= j <= i < named(pattern).len(),
        declared(
            scope,
            named(pattern)[i],
            if takes_apart(pattern) {
                slot_at(value, i as nat)
            } else {
                value
            },
        ).contains(u),
    ensures
        declared_from(scope, pattern, j, value, acc).contains(u),
    decreases i - j,
{
    let more = declared(
        scope,
        named(pattern)[j],
        if takes_apart(pattern) {
            slot_at(value, j as nat)
        } else {
            value
        },
    );
    if j == i {
        let k = more.index_of(u);
        assert((acc + more)[acc.len() + k] == u);
        lemma_declared_keeps(scope, pattern, j + 1, value, acc + more, u);
    } else {
        lemma_declared_part(scope, pattern, j + 1, value, acc + more, i, u);
    }
}

/// A declaration makes the stores of each of its parts: a part of a pattern in brackets is given
/// the slot at its position, however deep the pattern nests.
pub proof fn parts_are_declared(
    scope: ScopeView,
    pattern: SyntaxNode,
    value: Callable,
    i: int,
    u: UpdateView,
)
    requires
        defined_at(scope, pattern) is None,
        0 <= i < named(pattern).len(),
        declared(
            scope,
            named(pattern)[i],
            if takes_apart(pattern) {
                slot_at(value, i as nat)
            } else {
                value
            },
        ).contains(u),
    ensures
        declared(scope, pattern, value).contains(u),
{
    lemma_declared_part(scope, pattern, 0, value, Seq::empty(), i, u);
}

proof fn lemma_assignments_keep(
    scope: ScopeView,
    target: SyntaxNode,
    i: int,
    value: Callable,
    writes: Seq<LocalRef>,
    acc: Seq<UpdateView>,
    u: UpdateView,
)
    requires
        acc.contains(u),
    ensures
        assignments_from(scope, target, i, value, writes, acc).contains(u),
    decreases named(target).len() - i,
{
    if 0 <= i < named(target).len() {
        let more = assignments(scope, named(target)[i], slot_at(value, i as nat), writes);
        let k = acc.index_of(u);
        assert((acc + more)[k] == u);
        lemma_assignments_keep(scope, target, i + 1, value, writes, acc + more, u);
    }
}

proof fn lemma_assigned_part(
    scope: ScopeView,
    target: SyntaxNode,
    j: int,
    value: Callable,
    writes: Seq<LocalRef>,
    acc: Seq<UpdateView>,
    i: int,
    u: UpdateView,
)
    requires
        0 <= j <= i < named(target).len(),
        assignments(scope, named(target)[i], slot_at(value, i as nat), writes).contains(u),
    ensures
        assignments_from(scope, target, j, value, writes, acc).contains(u),
    decreases i - j,
{
    let more = assignments(scope, named(target)[j], slot_at(value, j as nat), writes);
    if j == i {
        let k = more.index_of(u);
        assert((acc + more)[acc.len() + k] == u);
        lemma_assignments_keep(scope, target, j + 1, value, writes, acc + more, u);
    } else {
        lemma_assigned_part(scope, target, j + 1, value, writes, acc + more, i, u);
    }
}

/// An assignment to a tuple of targets makes the stores of each of them, with the slot at its
/// position, however deep the targets nest.
pub proof fn parts_are_assigned(
    scope: ScopeView,
    target: SyntaxNode,
    value: Callable,
    writes: Seq<LocalRef>,
    i: int,
    u: UpdateView,
)
    requires
        kind_of(target.kind@) is Tensor || kind_of(target.kind@) is TypedTuple,
        0 <= i < named(target).len(),
        assignments(scope, named(target)[i], slot_at(value, i as nat), writes).contains(u),
    ensures
        assignments(scope, target, value, writes).contains(u),
{
    lemma_assigned_part(scope, target, 0, value, writes, Seq::empty(), i, u);
}

proof fn lemma_assigned_elsewhere(
    state: Map<LocalRef, Callable>,
    before: Map<LocalRef, Callable>,
    updates: Seq<UpdateView>,
    i: int,
    local: LocalRef,
)
    requires
        state.contains_key(local),
        forall|k: int| i <= k < updates.len() ==> (#[trigger] updates[k]).path.root != local,
    ensures
        assigned_from(state, before, updates, i).contains_key(local),
        assigned_from(state, before, updates, i)[local] == state[local],
    decreases updates.len() - i,
{
    if 0 <= i < updates.len() {
        let next = written(before, updates[i].path, updates[i].value);
        let root = updates[i].path.root;
        lemma_assigned_elsewhere(state.insert(root, next[root]), next, updates, i + 1, local);
    }
}

proof fn lemma_assigned_from(
    state: Map<LocalRef, Callable>,
    before: Map<LocalRef, Callable>,
    updates: Seq<UpdateView>,
    i: int,
    j: int,
)
    requires
        0 <= i <= j < updates.len(),
        updates[j].path.members.len() == 0,
        forall|k: int|
            j < k < updates.len() ==> (#[trigger] updates[k]).path.root != updates[j].path.root,
    ensures
        assigned_from(state, before, updates, i).contains_key(updates[j].path.root),
        assigned_from(state, before, updates, i)[updates[j].path.root] == updates[j].value,
    decreases j - i,
{
    let next = written(before, updates[i].path, updates[i].value);
    let root = updates[i].path.root;
    if i == j {
        lemma_assigned_elsewhere(state.insert(root, next[root]), next, updates, i + 1, root);
    } else {
        lemma_assigned_from(state.insert(root, next[root]), next, updates, i + 1, j);
    }
}

/// Behind an assignment a local holds the value of the last store into it, where that store is
/// into the local as a whole.
pub proof fn last_store_is_held(
    state: Map<LocalRef, Callable>,
    before: Map<LocalRef, Callable>,
    updates: Seq<UpdateView>,
    j: int,
)
    requires
        0 <= j < updates.len(),
        updates[j].path.members.len() == 0,
        forall|k: int|
            j < k < updates.len() ==> (#[trigger] updates[k]).path.root != updates[j].path.root,
    ensures
        assigned_from(state, before, updates, 0).contains_key(updates[j].path.root),
        assigned_from(state, before, updates, 0)[updates[j].path.root] == updates[j].value,
{
    lemma_assigned_from(state, before, updates, 0, j);
}

/// The value of a local; nothing is known of one that is not listed.
pub fn held_value(state: &State, local: &LocalRef) -> (r: CallableValue)
    ensures
        r@ == held(state@, *local),
{
    match state.get(local) {
        Some(value) => value.clone(),
        None => CallableValue::default(),
    }
}

/// Stores a value at a path.
pub fn write_path(state: &mut State, path: &LocalPath, value: CallableValue)
    ensures
        final(state)@ == written(old(state)@, path@, value@),
{
    let mut root = held_value(state, &path.root);
    root.set_member_path(path.members.as_slice(), value);
    state.insert(path.root, root);
}

impl LocalPath {
    /// Whether two paths lead to the same place.
    pub fn same(&self, other: &LocalPath) -> (r: bool)
        ensures
            r == (self@ == other@),
    {
        if self.root != other.root || self.members.len() != other.members.len() {
            assert(views(self.members@).len() == self.members@.len());
            assert(views(other.members@).len() == other.members@.len());
            return false;
        }
        let n: usize = self.members.len();
        let mut i: usize = 0;
        while i < n
            invariant
                i <= n,
                n == self.members@.len(),
                n == other.members@.len(),
                forall|j: int| 0 <= j < i ==> (#[trigger] self.members@[j])@ == other.members@[j]@,
            decreases n - i,
        {
            if !same_text(self.members[i].as_str(), other.members[i].as_str()) {
                assert(views(self.members@)[i as int] != views(other.members@)[i as int]);
                return false;
            }
            i += 1;
        }
        assert(views(self.members@) =~= views(other.members@));
        true
    }
}

fn slot_of(value: &CallableValue, i: usize) -> (r: CallableValue)
    ensures
        r@ == slot_at(value@, i as nat),
{
    if value.array_lengths.is_some() {
        value.member(int_text(i).as_str())
    } else {
        value.member(decimal_text(i as u64).as_str())
    }
}

fn find_token(node: &SyntaxNode, token: &str) -> (r: bool)
    ensures
        r == has_token(*node, token@),
{
    let n: usize = node.children.len();
    let mut i: usize = 0;
    while i < n
        invariant
            i <= n,
            n == node.children@.len(),
            forall|j: int|
                0 <= j < i ==> !(!(#[trigger] node.children@[j]).named && node.children@[j].kind@
                    == token@),
        decreases n - i,
    {
        let child = &node.children[i];
        if !child.named && same_text(child.kind.as_str(), token) {
            assert(!node.children@[i as int].named && node.children@[i as int].kind@ == token@);
            return true;
        }
        i += 1;
    }
    false
}

fn is_taken_apart(pattern: &SyntaxNode) -> (r: bool)
    ensures
        r == takes_apart(*pattern),
{
    find_token(pattern, "[") || find_token(pattern, "(") && pattern.named_children().len() != 1
}

/// Adds an update; values for one path are joined.
fn add_update(updates: &mut Vec<Update>, path: LocalPath, value: &CallableValue)
    ensures
        views(final(updates)@) == with_update(views(old(updates)@), path@, value@),
{
    let ghost start = views(updates@);
    let n: usize = updates.len();
    let mut i: usize = 0;
    while i < n
        invariant
            i <= n,
            n == updates@.len(),
            start == views(updates@),
            start == views(old(updates)@),
            update_from(start, path@, 0) == update_from(start, path@, i as int),
        decreases n - i,
    {
        if updates[i].path.same(&path) {
            let joined = merged_callable_value(&updates[i].value, value);
            assert(start[i as int].path == path@);
            let ghost result = UpdateView { path: path@, value: joined@ };
            updates.set(i, Update { path, value: joined });
            assert(views(updates@) =~= start.update(i as int, result));
            return;
        }
        assert(start[i as int].path != path@);
        i += 1;
    }
    updates.push(Update { path, value: value.clone() });
}

impl<'a> Scope<'a> {
    /// Changes the collection of which a call calls a method.
    fn apply_collection_call(&self, call: &SyntaxNode, state: &mut State, results: &Returns)
        ensures
            final(state)@ == after_call(self@, *call, old(state)@, results@),
    {
        let receiver = match call.receiver() {
            Some(receiver) => receiver,
            None => {
                return;
            },
        };
        let field = match call.method_field() {
            Some(field) => field,
            None => {
                return;
            },
        };
        let kind = match self.collection_kind(receiver) {
            Some(kind) => kind,
            None => {
                return;
            },
        };
        let name = match field.text(self.source.as_str()) {
            Some(name) => name,
            None => {
                return;
            },
        };
        let path = match self.local_value_path(receiver) {
            Some(path) => path,
            None => {
                return;
            },
        };
        let arguments = call.call_arguments();
        let collection = self.callable_value(receiver, state, results);
        match self.changed_collection(
            kind,
            classify_method(name.as_str()),
            &arguments,
            collection,
            state,
            results,
        ) {
            Some(changed) => {
                write_path(state, &path, changed);
            },
            None => {},
        }
    }

    fn changed_collection(
        &self,
        kind: CollectionKind,
        method: Method,
        arguments: &Vec<&SyntaxNode>,
        collection: CallableValue,
        state: &State,
        results: &Returns,
    ) -> (r: Option<CallableValue>)
        ensures
            opt_view(r) == changed_collection(
                self@,
                kind,
                method,
                pointees(arguments@),
                collection@,
                state@,
                results@,
            ),
    {
        let first: Option<&SyntaxNode> = if arguments.len() > 0 {
            Some(arguments[0])
        } else {
            None
        };
        let second: Option<&SyntaxNode> = if arguments.len() > 1 {
            Some(arguments[1])
        } else {
            None
        };
        let mut changed = collection;
        match (kind, method, first, second) {
            (CollectionKind::Array, Method::Push, Some(value), _) => {
                let pushed = self.callable_value(value, state, results);
                changed.push_array_member(pushed);
                Some(changed)
            },
            (CollectionKind::Array, Method::Store, Some(value), Some(index)) => {
                let new = self.callable_value(value, state, results);
                self.store(&mut changed, index, new);
                Some(changed)
            },
            (CollectionKind::Array, Method::Pop, _, _) => {
                changed.pop_array_member();
                Some(changed)
            },
            (
                CollectionKind::Mapping,
                Method::Store | Method::StoreAndGet,
                Some(key),
                Some(value),
            ) => {
                let new = self.callable_value(value, state, results);
                self.store(&mut changed, key, new);
                Some(changed)
            },
            (
                CollectionKind::Mapping,
                Method::StoreIf | Method::StoreIfAndGet,
                Some(key),
                Some(value),
            ) => {
                let new = self.callable_value(value, state, results);
                match self.collection_key(key) {
                    Some(name) => {
                        changed.choose_member(name, &new);
                    },
                    None => {
                        changed.set_dynamic_member(new);
                    },
                }
                Some(changed)
            },
            (CollectionKind::Mapping, Method::Delete | Method::DeleteAndGet, Some(key), _) => {
                match self.collection_key(key) {
                    Some(name) => {
                        changed.members.remove(&name);
                        Some(changed)
                    },
                    None => None,
                }
            },
            (CollectionKind::List, Method::PrependHead, Some(head), _) => {
                let new = self.callable_value(head, state, results);
                Some(CallableValue::list_cell(new, changed))
            },
            (CollectionKind::List, Method::PopHead, _, _) => Some(changed.member("1")),
            _ => None,
        }
    }

    /// Changes the collections of which the calls in an expression call methods.
    pub fn apply_collection_mutations(
        &self,
        node: &SyntaxNode,
        state: &mut State,
        results: &Returns,
    )
        ensures
            final(state)@ == after_collections(self@, *node, old(state)@, results@),
        decreases node,
    {
        let kind = node.node_kind();
        if let NodeKind::Lambda = kind {
            return;
        }
        let ghost start = state@;
        let children = node.named_children();
        let n: usize = children.len();
        let mut i: usize = 0;
        while i < n
            invariant
                i <= n,
                n == children@.len(),
                n == named(*node).len(),
                forall|j: int| 0 <= j < n ==> *(#[trigger] children@[j]) == named(*node)[j],
                after_collections_from(self@, *node, 0, start, results@)
                    == after_collections_from(self@, *node, i as int, state@, results@),
            decreases n - i,
        {
            proof {
                lemma_named(*node, i as int);
            }
            let child = children[i];
            self.apply_collection_mutations(child, state, results);
            i += 1;
        }
        if let NodeKind::Call = kind {
            self.apply_collection_call(node, state, results);
        }
    }

    /// What a call may call.
    pub fn called_value(&self, callee: &SyntaxNode, state: &State, results: &Returns) -> (r:
        CallableValue)
        ensures
            r@ == called_value(self@, *callee, state@, results@),
    {
        match self.direct_callable_target(callee) {
            Some(target) => CallableValue::target(target),
            None => self.callable_value(callee, state, results),
        }
    }

    fn collect_outputs(
        &self,
        actuals: &Vec<&SyntaxNode>,
        outputs: &Slots,
        updates: &mut Vec<Update>,
    )
        ensures
            views(final(updates)@) == outputs_from(
                self@,
                pointees(actuals@),
                outputs@,
                0,
                views(old(updates)@),
            ),
    {
        let ghost start = views(updates@);
        let n: usize = actuals.len();
        let m: usize = outputs.items.len();
        let mut i: usize = 0;
        while i < n && i < m
            invariant
                i <= n,
                i <= m,
                n == actuals@.len(),
                m == outputs.items@.len(),
                outputs_from(self@, pointees(actuals@), outputs@, 0, start) == outputs_from(
                    self@,
                    pointees(actuals@),
                    outputs@,
                    i as int,
                    views(updates@),
                ),
            decreases n - i,
        {
            assert(pointees(actuals@)[i as int] == *actuals@[i as int]);
            match &outputs.items[i] {
                Some(output) => {
                    if !output.bottom {
                        match self.local_value_path(actuals[i]) {
                            Some(path) => {
                                add_update(updates, path, output);
                            },
                            None => {},
                        }
                    }
                },
                None => {},
            }
            i += 1;
        }
    }

    fn apply_outputs_of(
        &self,
        call: &SyntaxNode,
        state: &mut State,
        results: &Returns,
        mutations: &Mutations,
    )
        ensures
            final(state)@ == after_outputs_of(self@, *call, old(state)@, results@, mutations@),
    {
        let callee = match call.part("callee") {
            Some(callee) => callee,
            None => {
                return;
            },
        };
        let called = self.called_value(callee, state, results);
        let arguments = call.call_arguments();
        let receiver = call.receiver();
        let mut updates: Vec<Update> = Vec::new();
        let n: usize = called.targets.len();
        let mut i: usize = 0;
        let ghost targets = ascending::<String>(called.targets@);
        let ghost all = updates_from(self@, *call, targets, mutations@, 0, Seq::empty());
        while i < n
            invariant
                i <= n,
                n == targets.len(),
                targets == called.targets.sequence(),
                pointees(arguments@) == arguments_of(*call),
                receiver is Some <==> receiver_of(*call) is Some,
                receiver matches Some(c) ==> Some(*c) == receiver_of(*call),
                all == updates_from(
                    self@,
                    *call,
                    targets,
                    mutations@,
                    i as int,
                    views(updates@),
                ),
            decreases n - i,
        {
            let target = called.targets.at(i);
            match mutations.get(target) {
                Some(outputs) => {
                    assert(outputs@.len() == outputs.items@.len());
                    let shifted = outputs.items.len() > 0 && outputs.items.len() - 1
                        == arguments.len();
                    let mut actuals: Vec<&SyntaxNode> = Vec::new();
                    match receiver {
                        Some(object) => {
                            if shifted {
                                actuals.push(object);
                            }
                        },
                        None => {},
                    }
                    let ghost front = pointees(actuals@);
                    let mut j: usize = 0;
                    while j < arguments.len()
                        invariant
                            j <= arguments@.len(),
                            pointees(actuals@) =~= front + pointees(arguments@).take(j as int),
                        decreases arguments@.len() - j,
                    {
                        let ghost held = pointees(actuals@);
                        actuals.push(arguments[j]);
                        assert(pointees(actuals@) =~= held.push(pointees(arguments@)[j as int]));
                        j += 1;
                    }
                    assert(pointees(actuals@) =~= actuals_for(
                        receiver_of(*call),
                        arguments_of(*call),
                        outputs@.len(),
                    ));
                    self.collect_outputs(&actuals, outputs, &mut updates);
                },
                None => {},
            }
            i += 1;
        }
        let ghost start = state@;
        let m: usize = updates.len();
        let mut k: usize = 0;
        while k < m
            invariant
                k <= m,
                m == updates@.len(),
                updated_from(start, views(updates@), 0) == updated_from(
                    state@,
                    views(updates@),
                    k as int,
                ),
            decreases m - k,
        {
            write_path(state, &updates[k].path, updates[k].value.clone());
            k += 1;
        }
    }

    /// Changes the arguments that the targets of the calls in an expression mutate.
    pub fn apply_interprocedural_mutations(
        &self,
        node: &SyntaxNode,
        state: &mut State,
        results: &Returns,
        mutations: &Mutations,
    )
        ensures
            final(state)@ == after_outputs(self@, *node, old(state)@, results@, mutations@),
        decreases node,
    {
        let kind = node.node_kind();
        if let NodeKind::Lambda = kind {
            return;
        }
        let ghost start = state@;
        let children = node.named_children();
        let n: usize = children.len();
        let mut i: usize = 0;
        while i < n
            invariant
                i <= n,
                n == children@.len(),
                n == named(*node).len(),
                forall|j: int| 0 <= j < n ==> *(#[trigger] children@[j]) == named(*node)[j],
                after_outputs_from(self@, *node, 0, start, results@, mutations@)
                    == after_outputs_from(
                    self@,
                    *node,
                    i as int,
                    state@,
                    results@,
                    mutations@,
                ),
            decreases n - i,
        {
            proof {
                lemma_named(*node, i as int);
            }
            let child = children[i];
            self.apply_interprocedural_mutations(child, state, results, mutations);
            i += 1;
        }
        if let NodeKind::Call = kind {
            self.apply_outputs_of(node, state, results, mutations);
        }
    }

    /// Lists the stores that an assignment makes.
    fn collect_assignments(
        &self,
        target: &SyntaxNode,
        value: CallableValue,
        writes: &Vec<LocalRef>,
        updates: &mut Vec<Update>,
    )
        ensures
            views(final(updates)@) == views(old(updates)@) + assignments(
                self@,
                *target,
                value@,
                writes@,
            ),
        decreases target,
    {
        let ghost start = views(updates@);
        match target.node_kind() {
            NodeKind::Tensor | NodeKind::TypedTuple => {
                let children = target.named_children();
                let n: usize = children.len();
                let mut i: usize = 0;
                let ghost mut acc: Seq<UpdateView> = Seq::empty();
                assert(start + acc =~= start);
                while i < n
                    invariant
                        i <= n,
                        n == children@.len(),
                        n == named(*target).len(),
                        forall|j: int|
                            0 <= j < n ==> *(#[trigger] children@[j]) == named(*target)[j],
                        views(updates@) == start + acc,
                        assignments_from(self@, *target, 0, value@, writes@, Seq::empty())
                            == assignments_from(
                            self@,
                            *target,
                            i as int,
                            value@,
                            writes@,
                            acc,
                        ),
                    decreases n - i,
                {
                    proof {
                        lemma_named(*target, i as int);
                    }
                    let slot = slot_of(&value, i);
                    let child = children[i];
                    let ghost more = assignments(self@, *child, slot@, writes@);
                    self.collect_assignments(child, slot, writes, updates);
                    proof {
                        assert(start + acc + more =~= start + (acc + more));
                        acc = acc + more;
                    }
                    i += 1;
                }
            },
            NodeKind::Declaration => {
                let before: usize = updates.len();
                self.collect_declared(target, &value, updates);
                let ghost found = declared(self@, *target, value@);
                assert(views(updates@).len() == start.len() + found.len());
                if updates.len() == before {
                    assert(found =~= Seq::empty());
                    assert(views(updates@) =~= start);
                    self.store_whole(target, value, writes, updates);
                }
            },
            _ => self.store_whole(target, value, writes, updates),
        }
    }

    /// Lists the store at a single target.
    fn store_whole(
        &self,
        target: &SyntaxNode,
        value: CallableValue,
        writes: &Vec<LocalRef>,
        updates: &mut Vec<Update>,
    )
        ensures
            views(final(updates)@) == views(old(updates)@) + stored_whole(
                self@,
                *target,
                value@,
                writes@,
            ),
    {
        let ghost start = views(updates@);
        match self.local_assignment_target(target, writes) {
            Some(path) => {
                let ghost new = UpdateView { path: path@, value: value@ };
                updates.push(Update { path, value });
                assert(start.push(new) =~= start + seq![new]);
            },
            None => {
                assert(start + Seq::empty() =~= start);
            },
        }
    }

    /// Lists the stores that a declaration makes.
    fn collect_declared(
        &self,
        pattern: &SyntaxNode,
        value: &CallableValue,
        updates: &mut Vec<Update>,
    )
        ensures
            views(final(updates)@) == views(old(updates)@) + declared(self@, *pattern, value@),
        decreases pattern,
    {
        let ghost start = views(updates@);
        if let Some(root) = self.defined_local(pattern) {
            let path = LocalPath { root, members: Vec::new() };
            assert(views(path.members@) =~= Seq::empty());
            let ghost new = UpdateView { path: path@, value: value@ };
            updates.push(Update { path, value: value.clone() });
            assert(start.push(new) =~= start + seq![new]);
            return;
        }
        let apart = is_taken_apart(pattern);
        let children = pattern.named_children();
        let n: usize = children.len();
        let mut i: usize = 0;
        let ghost mut acc: Seq<UpdateView> = Seq::empty();
        assert(start + acc =~= start);
        while i < n
            invariant
                i <= n,
                n == children@.len(),
                n == named(*pattern).len(),
                apart == takes_apart(*pattern),
                forall|j: int| 0 <= j < n ==> *(#[trigger] children@[j]) == named(*pattern)[j],
                views(updates@) == start + acc,
                declared_from(self@, *pattern, 0, value@, Seq::empty()) == declared_from(
                    self@,
                    *pattern,
                    i as int,
                    value@,
                    acc,
                ),
            decreases n - i,
        {
            proof {
                lemma_named(*pattern, i as int);
            }
            let child = children[i];
            let part = if apart {
                slot_of(value, i)
            } else {
                value.clone()
            };
            let ghost more = declared(self@, *child, part@);
            self.collect_declared(child, &part, updates);
            proof {
                assert(start + acc + more =~= start + (acc + more));
                acc = acc + more;
            }
            i += 1;
        }
    }

    /// The state behind a node of a control-flow graph.
    pub fn transfer_callable_state(
        &self,
        node: &FlowNode,
        incoming: &State,
        results: &Returns,
        mutations: &Mutations,
    ) -> (r: State)
        ensures
            r@ == transferred(self@, *node, incoming@, results@, mutations@),
    {
        let mut outgoing = incoming.copy();
        let span = match node.span {
            Some(span) => span,
            None => {
                return outgoing;
            },
        };
        let n: usize = node.writes.len();
        let mut i: usize = 0;
        while i < n
            invariant
                i <= n,
                n == node.writes@.len(),
                forgotten_from(incoming@, node.writes@, 0) == forgotten_from(
                    outgoing@,
                    node.writes@,
                    i as int,
                ),
            decreases n - i,
        {
            outgoing.insert(node.writes[i], CallableValue::default());
            i += 1;
        }
        let syntax = match self.find_node_at_span(span) {
            Some(syntax) => syntax,
            None => {
                return outgoing;
            },
        };
        let mut updates: Vec<Update> = Vec::new();
        match (syntax.node_kind(), syntax.part("left"), syntax.part("right")) {
            (NodeKind::Assignment, Some(left), Some(right)) => {
                let value = self.callable_value(right, incoming, results);
                self.collect_assignments(left, value, &node.writes, &mut updates);
            },
            _ => {},
        }
        assert(views(updates@) =~= node_assignments(
            self@,
            *syntax,
            node.writes@,
            incoming@,
            results@,
        ));
        self.apply_collection_mutations(syntax, &mut outgoing, results);
        self.apply_interprocedural_mutations(syntax, &mut outgoing, results, mutations);
        let ghost start = outgoing@;
        let mut before = incoming.copy();
        let m: usize = updates.len();
        let mut k: usize = 0;
        while k < m
            invariant
                k <= m,
                m == updates@.len(),
                assigned_from(start, incoming@, views(updates@), 0) == assigned_from(
                    outgoing@,
                    before@,
                    views(updates@),
                    k as int,
                ),
            decreases m - k,
        {
            write_path(&mut before, &updates[k].path, updates[k].value.clone());
            let root = held_value(&before, &updates[k].path.root);
            outgoing.insert(updates[k].path.root, root);
            k += 1;
        }
        outgoing
    }
}

} // verus!
