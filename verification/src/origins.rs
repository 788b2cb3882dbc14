//! Where targets come from: no part of the analysis invents one.
use crate::callable::join_optional;
use crate::effects::{
    actuals_for, after_call, after_collections, after_collections_from, after_outputs,
    after_outputs_from, assigned_from, assignments, assignments_from, called_value,
    changed_collection, declared, declared_from, forgotten_from, node_assignments, outputs_from,
    slot_at, takes_apart, transferred, update_from, updated_from, updates_from, with_update,
    written, UpdateView,
};
use crate::evaluate::{
    call_result, elements_from, ends_from, fields_from, found, held, last_of, looked_up,
    method_value, nth, operation_value, part_value, results_from, returned, shaped, slots_from,
    slots_of, stored, value_of, MAX_VALUE_DEPTH,
};
use crate::flow::{
    enclosing_is_shortest, enclosing_node, graph_ok, FlowEdge, FlowGraph, FlowKind, FlowNode,
};
use crate::ids::{LocalRef, Resolved, Span, SpanKey, SymbolRef};
use crate::lattice::{
    any_member_of, dynamic_member, int_key, is_end, join, join_from, join_leaf, leaf, limited,
    listed, longer, map_value_member, member_of, not_reached, shorter, unknown, with_ends,
    with_joined, with_member, with_path, with_popped, with_pushed, Callable,
};
use crate::methods::{arguments_of, key_of, method_field_of, method_of, receiver_of, Method};
use crate::model::CallSiteView;
use crate::program::{
    analyzed, analyzed_from, argument_values_from, blank, calls_from, captured, captures_from,
    captures_of, creations_from, definition_states, doubted, entry, entry_state, first_summary,
    idle_value, outputs_of, parameter_value, parameters_from, passed_values, passes,
    program_analysis, program_ok, return_value, returned_from, rounds_for, scope_in, snapshot_from,
    state_at, statement_value, targets_from, with_arguments, with_call, with_call_at,
    with_definition, with_idle_call, with_outcome, AnalysisView, DefinitionView, ProgramCallView,
    ProgramView, SummaryView,
};
use crate::scope::{
    collection_at, direct_target, is_library_name, local_path, node_under, place, resolved_at,
    CollectionKind, NamesView, PathView, ScopeView,
};
use crate::states::{
    flow_states, followed_from, merged_states, passed, reached, settled_states, started, stepped,
    Progress, MAX_STEPS,
};
use crate::syntax::{kind_of, lemma_named, lemma_part, named, part, text_of, NodeKind, SyntaxNode};
use crate::tables::{ascending, lemma_ascending};
use crate::text::decimal;
use vstd::prelude::*;

verus! {

/// A value names only targets of a set, here and in every member, and all its parts are finite.
pub open spec fn within(v: Callable, all: Set<Seq<char>>) -> bool
    decreases v,
{
    &&& v.targets.finite()
    &&& v.targets.subset_of(all)
    &&& v.members.dom().finite()
    &&& v.array_lengths matches Some(lengths) ==> lengths.finite()
    &&& forall|k: Seq<char>|
        v.members.contains_key(k) ==> within(#[trigger] v.members[k], all)
}

proof fn lemma_join_leaf(v: Callable, complete: bool, all: Set<Seq<char>>)
    requires
        within(v, all),
    ensures
        within(join_leaf(v, complete), all),
    decreases v,
{
    if !v.bottom {
        let x = join_leaf(v, complete);
        assert(x.members.dom() =~= v.members.dom());
        assert forall|k: Seq<char>| x.members.contains_key(k) implies within(
            #[trigger] x.members[k],
            all,
        ) by {
            lemma_join_leaf(v.members[k], false, all);
        }
    }
}

/// A join names only what its sides name.
pub proof fn lemma_join(a: Callable, b: Callable, all: Set<Seq<char>>)
    requires
        within(a, all),
        within(b, all),
    ensures
        within(join(a, b), all),
    decreases a,
{
    if !a.bottom && !b.bottom {
        let x = join(a, b);
        assert(x.members.dom() =~= a.members.dom().union(b.members.dom()));
        assert forall|k: Seq<char>| x.members.contains_key(k) implies within(
            #[trigger] x.members[k],
            all,
        ) by {
            if a.members.contains_key(k) {
                if b.members.contains_key(k) {
                    lemma_join(a.members[k], b.members[k], all);
                } else {
                    lemma_join_leaf(a.members[k], b.members_complete, all);
                }
            } else {
                lemma_join_leaf(b.members[k], a.members_complete, all);
            }
        }
    }
}

proof fn lemma_member_of(v: Callable, key: Seq<char>, all: Set<Seq<char>>)
    requires
        within(v, all),
    ensures
        within(listed(v, key), all),
        within(member_of(v, key), all),
{
    let dynamic = dynamic_member();
    if v.members.contains_key(key) {
        assert(within(v.members[key], all));
    }
    if v.members.contains_key(dynamic) {
        assert(within(v.members[dynamic], all));
        lemma_join(listed(v, key), v.members[dynamic], all);
    }
}

proof fn lemma_join_from(
    members: Map<Seq<char>, Callable>,
    keys: Seq<Seq<char>>,
    i: int,
    acc: Callable,
    all: Set<Seq<char>>,
)
    requires
        within(acc, all),
        forall|j: int| 0 <= j < keys.len() ==> members.contains_key(#[trigger] keys[j]),
        forall|k: Seq<char>| members.contains_key(k) ==> within(#[trigger] members[k], all),
    ensures
        within(join_from(members, keys, i, acc), all),
    decreases keys.len() - i,
{
    if 0 <= i < keys.len() {
        assert(members.contains_key(keys[i]));
        lemma_join(acc, members[keys[i]], all);
        lemma_join_from(members, keys, i + 1, join(acc, members[keys[i]]), all);
    }
}

/// The keys of a map, in order, are its keys.
proof fn lemma_keys_listed<V>(map: Map<Seq<char>, V>)
    requires
        map.dom().finite(),
    ensures
        forall|j: int|
            0 <= j < ascending::<String>(map.dom()).len() ==> map.contains_key(
                #[trigger] ascending::<String>(map.dom())[j],
            ),
{
    lemma_ascending::<String>(map.dom());
    let keys = ascending::<String>(map.dom());
    assert forall|j: int| 0 <= j < keys.len() implies map.contains_key(#[trigger] keys[j]) by {
        assert(keys.to_set().contains(keys[j]));
    }
}

proof fn lemma_any_member_of(v: Callable, all: Set<Seq<char>>)
    requires
        within(v, all),
    ensures
        within(any_member_of(v), all),
{
    if !v.bottom {
        lemma_keys_listed(v.members);
        lemma_join_from(
            v.members,
            ascending::<String>(v.members.dom()),
            0,
            leaf(v.members_complete),
            all,
        );
    }
}

proof fn lemma_with_member(v: Callable, key: Seq<char>, value: Callable, all: Set<Seq<char>>)
    requires
        within(v, all),
        within(value, all),
    ensures
        within(with_member(v, key, value), all),
{
    let x = with_member(v, key, value);
    assert forall|k: Seq<char>| x.members.contains_key(k) implies within(
        #[trigger] x.members[k],
        all,
    ) by {
        if k != key {
            assert(within(v.members[k], all));
        }
    }
}

proof fn lemma_with_joined(v: Callable, key: Seq<char>, value: Callable, all: Set<Seq<char>>)
    requires
        within(v, all),
        within(value, all),
    ensures
        within(with_joined(v, key, value), all),
{
    let held = if v.members.contains_key(key) {
        v.members[key]
    } else {
        not_reached()
    };
    if v.members.contains_key(key) {
        assert(within(v.members[key], all));
    }
    lemma_join(held, value, all);
    lemma_with_member(v, key, join(held, value), all);
}

proof fn lemma_with_ends(v: Callable, lengths: Set<usize>, value: Callable, all: Set<Seq<char>>)
    requires
        within(v, all),
        within(value, all),
        lengths.finite(),
    ensures
        within(with_ends(v, lengths, value), all),
{
    let x = with_ends(v, lengths, value);
    let ends = lengths.map(|n: usize| int_key(n as nat));
    lengths.lemma_map_finite(|n: usize| int_key(n as nat));
    assert forall|k: Seq<char>| is_end(lengths, k) <==> ends.contains(k) by {
        if is_end(lengths, k) {
            let n = choose|n: usize| lengths.contains(n) && #[trigger] int_key(n as nat) == k;
            assert(ends.contains(k));
        }
    }
    assert(x.members.dom() =~= v.members.dom().union(ends));
    assert forall|k: Seq<char>| x.members.contains_key(k) implies within(
        #[trigger] x.members[k],
        all,
    ) by {
        if is_end(lengths, k) {
            lemma_with_joined(v, k, value, all);
            let joined = with_joined(v, k, value);
            assert(joined.members.contains_key(k));
            assert(within(joined.members[k], all));
        } else {
            assert(within(v.members[k], all));
        }
    }
}

proof fn lemma_with_pushed(v: Callable, value: Callable, all: Set<Seq<char>>)
    requires
        within(v, all),
        within(value, all),
    ensures
        within(with_pushed(v, value), all),
{
    match v.array_lengths {
        None => {
            lemma_with_joined(v, dynamic_member(), value, all);
        },
        Some(lengths) => {
            let next = lengths.map(|n: usize| longer(n));
            lengths.lemma_map_finite(|n: usize| longer(n));
            lemma_with_ends(v, lengths, value, all);
            let filled = with_ends(v, lengths, value);
            let open = Callable { array_lengths: None, ..filled };
            assert(within(open, all)) by {
                assert forall|k: Seq<char>| open.members.contains_key(k) implies within(
                    #[trigger] open.members[k],
                    all,
                ) by {
                    assert(within(filled.members[k], all));
                }
            }
            lemma_with_joined(open, dynamic_member(), value, all);
            let kept = Callable { array_lengths: Some(next), ..filled };
            assert(within(kept, all)) by {
                assert forall|k: Seq<char>| kept.members.contains_key(k) implies within(
                    #[trigger] kept.members[k],
                    all,
                ) by {
                    assert(within(filled.members[k], all));
                }
            }
        },
    }
}

proof fn lemma_with_popped(v: Callable, all: Set<Seq<char>>)
    requires
        within(v, all),
    ensures
        within(with_popped(v), all),
{
    match v.array_lengths {
        Some(lengths) => {
            lengths.lemma_map_finite(|n: usize| shorter(n));
        },
        None => {},
    }
    let x = with_popped(v);
    assert forall|k: Seq<char>| x.members.contains_key(k) implies within(
        #[trigger] x.members[k],
        all,
    ) by {
        assert(within(v.members[k], all));
    }
}

proof fn lemma_with_path(v: Callable, path: Seq<Seq<char>>, value: Callable, all: Set<Seq<char>>)
    requires
        within(v, all),
        within(value, all),
    ensures
        within(with_path(v, path, value), all),
    decreases path.len(),
{
    if path.len() > 0 {
        let base = if v.bottom {
            unknown()
        } else {
            v
        };
        if path.len() == 1 {
            lemma_with_member(base, path[0], value, all);
        } else {
            let held = if base.members.contains_key(path[0]) {
                base.members[path[0]]
            } else {
                unknown()
            };
            if base.members.contains_key(path[0]) {
                assert(within(base.members[path[0]], all));
            }
            lemma_with_path(held, path.drop_first(), value, all);
            lemma_with_member(base, path[0], with_path(held, path.drop_first(), value), all);
        }
    }
}

proof fn lemma_limited(v: Callable, remaining: nat, all: Set<Seq<char>>)
    requires
        within(v, all),
    ensures
        within(limited(v, remaining), all),
    decreases remaining,
{
    if v.bottom || v.members == Map::<Seq<char>, Callable>::empty() || remaining == 0 {
    } else {
        let x = limited(v, remaining);
        assert(x.members.dom() =~= v.members.dom());
        assert forall|k: Seq<char>| x.members.contains_key(k) implies within(
            #[trigger] x.members[k],
            all,
        ) by {
            lemma_limited(v.members[k], (remaining - 1) as nat, all);
        }
    }
}

proof fn lemma_slots_of(v: Callable, all: Set<Seq<char>>)
    requires
        within(v, all),
    ensures
        within(slots_of(v), all),
    decreases v, ascending::<String>(v.members.dom()).len() + 1,
{
    if v.bottom || v.members == Map::<Seq<char>, Callable>::empty() {
    } else {
        lemma_slots_from(
            v,
            0,
            if v.members_complete {
                not_reached()
            } else {
                unknown()
            },
            all,
        );
    }
}

proof fn lemma_slots_from(v: Callable, i: int, acc: Callable, all: Set<Seq<char>>)
    requires
        within(v, all),
        within(acc, all),
    ensures
        within(slots_from(v, i, acc), all),
    decreases v, ascending::<String>(v.members.dom()).len() - i,
{
    let keys = ascending::<String>(v.members.dom());
    if 0 <= i < keys.len() && v.members.contains_key(keys[i]) {
        assert(within(v.members[keys[i]], all));
        lemma_slots_of(v.members[keys[i]], all);
        lemma_join(acc, slots_of(v.members[keys[i]]), all);
        lemma_slots_from(v, i + 1, join(acc, slots_of(v.members[keys[i]])), all);
    }
}

proof fn lemma_ends_from(
    v: Callable,
    lengths: Seq<usize>,
    i: int,
    acc: Callable,
    all: Set<Seq<char>>,
)
    requires
        within(v, all),
        within(acc, all),
    ensures
        within(ends_from(v, lengths, i, acc), all),
    decreases lengths.len() - i,
{
    if 0 <= i < lengths.len() {
        let next = if lengths[i] > 0 {
            let end = member_of(v, int_key((lengths[i] - 1) as nat));
            lemma_member_of(v, int_key((lengths[i] - 1) as nat), all);
            lemma_join(acc, end, all);
            join(acc, end)
        } else {
            acc
        };
        lemma_ends_from(v, lengths, i + 1, next, all);
    }
}

proof fn lemma_last_of(v: Callable, all: Set<Seq<char>>)
    requires
        within(v, all),
    ensures
        within(last_of(v), all),
{
    match v.array_lengths {
        Some(lengths) => {
            lemma_ends_from(v, ascending::<usize>(lengths), 0, not_reached(), all);
        },
        None => {
            lemma_any_member_of(v, all);
        },
    }
}

proof fn lemma_looked_up(
    scope: ScopeView,
    collection: Callable,
    key: Option<SyntaxNode>,
    all: Set<Seq<char>>,
)
    requires
        within(collection, all),
    ensures
        within(looked_up(scope, collection, key), all),
        within(found(looked_up(scope, collection, key)), all),
{
    lemma_any_member_of(collection, all);
    match key {
        Some(node) => match key_of(scope, node) {
            Some(name) => {
                lemma_member_of(collection, name, all);
            },
            None => {},
        },
        None => {},
    }
    lemma_with_member(shaped(), map_value_member(), looked_up(scope, collection, key), all);
}

proof fn lemma_stored(
    scope: ScopeView,
    collection: Callable,
    key: SyntaxNode,
    value: Callable,
    all: Set<Seq<char>>,
)
    requires
        within(collection, all),
        within(value, all),
    ensures
        within(stored(scope, collection, key, value), all),
{
    match key_of(scope, key) {
        Some(name) => {
            lemma_with_member(collection, name, value, all);
        },
        None => {
            lemma_with_joined(collection, dynamic_member(), value, all);
        },
    }
}

/// The values of a table name only targets of a set.
pub open spec fn all_within<K>(values: Map<K, Callable>, all: Set<Seq<char>>) -> bool {
    forall|k: K| values.contains_key(k) ==> within(#[trigger] values[k], all)
}

/// The callables and lambdas that names stand for belong to a set.
pub open spec fn names_within(names: NamesView, all: Set<Seq<char>>) -> bool {
    &&& forall|symbol: SymbolRef|
        names.callables.contains(symbol) && names.symbol_ids.contains_key(symbol) ==> all.contains(
            #[trigger] names.symbol_ids[symbol],
        )
    &&& forall|key: SpanKey|
        names.lambda_ids.contains_key(key) ==> all.contains(#[trigger] names.lambda_ids[key])
}

proof fn lemma_direct_target(scope: ScopeView, node: SyntaxNode, all: Set<Seq<char>>)
    requires
        names_within(scope.names, all),
    ensures
        direct_target(scope, node) matches Some(target) ==> all.contains(target),
    decreases node,
{
    lemma_part(node, "expr"@);
    lemma_part(node, "inner"@);
    match kind_of(node.kind@) {
        NodeKind::Generic | NodeKind::Cast => match part(node, "expr"@) {
            Some(inner) => {
                lemma_direct_target(scope, inner, all);
            },
            None => {},
        },
        NodeKind::Parenthesized | NodeKind::NotNull => match part(node, "inner"@) {
            Some(inner) => {
                lemma_direct_target(scope, inner, all);
            },
            None => {},
        },
        _ => {},
    }
}

proof fn lemma_results_from(
    results: Map<Seq<char>, Callable>,
    targets: Seq<Seq<char>>,
    i: int,
    acc: Option<Callable>,
    all: Set<Seq<char>>,
)
    requires
        all_within(results, all),
        acc matches Some(value) ==> within(value, all),
    ensures
        results_from(results, targets, i, acc) matches Some(value) ==> within(value, all),
    decreases targets.len() - i,
{
    if 0 <= i < targets.len() {
        let result = returned(results, targets[i]);
        assert(within(result, all)) by {
            if results.contains_key(targets[i]) {
                assert(within(results[targets[i]], all));
            }
        }
        match acc {
            Some(value) => {
                lemma_join(value, result, all);
            },
            None => {},
        }
        lemma_results_from(results, targets, i + 1, Some(join_optional(acc, result)), all);
    }
}

proof fn lemma_call_result(
    called: Callable,
    results: Map<Seq<char>, Callable>,
    levels: nat,
    all: Set<Seq<char>>,
)
    requires
        all_within(results, all),
    ensures
        within(call_result(called, results, levels), all),
{
    if !called.bottom {
        let targets = ascending::<String>(called.targets);
        lemma_results_from(results, targets, 0, None, all);
        let joined = match results_from(results, targets, 0, None) {
            Some(value) => value,
            None => unknown(),
        };
        lemma_join(joined, unknown(), all);
        lemma_limited(joined, levels, all);
        lemma_limited(join(joined, unknown()), levels, all);
    }
}

/// An expression evaluates to what the locals, the results and the names provide.
pub proof fn lemma_value_of(
    scope: ScopeView,
    node: SyntaxNode,
    state: Map<LocalRef, Callable>,
    results: Map<Seq<char>, Callable>,
    levels: nat,
    all: Set<Seq<char>>,
)
    requires
        names_within(scope.names, all),
        all_within(state, all),
        all_within(results, all),
    ensures
        within(value_of(scope, node, state, results, levels), all),
    decreases levels, 0int, 0int,
{
    if levels > 0 {
        let inner = (levels - 1) as nat;
        lemma_direct_target(scope, node, all);
        match direct_target(scope, node) {
            Some(_) => {},
            None => match kind_of(node.kind@) {
                NodeKind::Identifier => match resolved_at(scope, node) {
                    Some(Resolved::Local(local)) => {
                        if state.contains_key(local) {
                            assert(within(state[local], all));
                        }
                    },
                    _ => {},
                },
                NodeKind::Lambda => {
                    let key = place(scope.file, node);
                    if scope.names.lambda_ids.contains_key(key) {
                        assert(all.contains(scope.names.lambda_ids[key]));
                    }
                },
                NodeKind::Call => {
                    lemma_operation_value(scope, node, state, results, inner, all);
                    match part(node, "callee"@) {
                        Some(callee) => {
                            lemma_value_of(scope, callee, state, results, inner, all);
                            lemma_call_result(
                                value_of(scope, callee, state, results, inner),
                                results,
                                levels,
                                all,
                            );
                        },
                        None => {},
                    }
                },
                NodeKind::DotAccess => match (part(node, "obj"@), part(node, "field"@)) {
                    (Some(object), Some(field)) => {
                        lemma_value_of(scope, object, state, results, inner, all);
                        lemma_member_of(
                            value_of(scope, object, state, results, inner),
                            match text_of(scope.source, field) {
                                Some(name) => name,
                                None => Seq::empty(),
                            },
                            all,
                        );
                    },
                    _ => {},
                },
                NodeKind::Generic | NodeKind::Cast => {
                    lemma_part_value(scope, part(node, "expr"@), state, results, inner, all);
                },
                NodeKind::Parenthesized | NodeKind::NotNull => {
                    lemma_part_value(scope, part(node, "inner"@), state, results, inner, all);
                },
                NodeKind::Ternary => {
                    let first = part(node, "consequence"@);
                    let second = part(node, "alternative"@);
                    lemma_part_value(scope, first, state, results, inner, all);
                    lemma_part_value(scope, second, state, results, inner, all);
                    lemma_join(
                        part_value(scope, first, state, results, inner),
                        part_value(scope, second, state, results, inner),
                        all,
                    );
                },
                NodeKind::Tensor => {
                    lemma_elements_from(
                        scope,
                        named(node),
                        0,
                        false,
                        shaped(),
                        state,
                        results,
                        inner,
                        all,
                    );
                },
                NodeKind::TypedTuple => {
                    let array = Callable {
                        array_lengths: Some(Set::empty().insert(named(node).len() as usize)),
                        ..shaped()
                    };
                    lemma_elements_from(
                        scope,
                        named(node),
                        0,
                        true,
                        array,
                        state,
                        results,
                        inner,
                        all,
                    );
                    lemma_elements_from(
                        scope,
                        named(node),
                        0,
                        false,
                        shaped(),
                        state,
                        results,
                        inner,
                        all,
                    );
                },
                NodeKind::Object => match part(node, "arguments"@) {
                    Some(list) => {
                        lemma_fields_from(
                            scope,
                            named(list),
                            0,
                            shaped(),
                            state,
                            results,
                            inner,
                            all,
                        );
                    },
                    None => {},
                },
                _ => {},
            },
        }
    }
}

proof fn lemma_part_value(
    scope: ScopeView,
    node: Option<SyntaxNode>,
    state: Map<LocalRef, Callable>,
    results: Map<Seq<char>, Callable>,
    levels: nat,
    all: Set<Seq<char>>,
)
    requires
        names_within(scope.names, all),
        all_within(state, all),
        all_within(results, all),
    ensures
        within(part_value(scope, node, state, results, levels), all),
    decreases levels, 1int, 0int,
{
    match node {
        Some(inner) => {
            lemma_value_of(scope, inner, state, results, levels, all);
        },
        None => {},
    }
}

proof fn lemma_elements_from(
    scope: ScopeView,
    elements: Seq<SyntaxNode>,
    i: int,
    array: bool,
    acc: Callable,
    state: Map<LocalRef, Callable>,
    results: Map<Seq<char>, Callable>,
    levels: nat,
    all: Set<Seq<char>>,
)
    requires
        names_within(scope.names, all),
        all_within(state, all),
        all_within(results, all),
        within(acc, all),
    ensures
        within(elements_from(scope, elements, i, array, acc, state, results, levels), all),
    decreases levels, 1int, elements.len() - i,
{
    if 0 <= i < elements.len() {
        let key = if array {
            int_key(i as nat)
        } else {
            decimal(i as nat)
        };
        let value = value_of(scope, elements[i], state, results, levels);
        lemma_value_of(scope, elements[i], state, results, levels, all);
        lemma_with_member(acc, key, value, all);
        lemma_elements_from(
            scope,
            elements,
            i + 1,
            array,
            with_member(acc, key, value),
            state,
            results,
            levels,
            all,
        );
    }
}

proof fn lemma_fields_from(
    scope: ScopeView,
    fields: Seq<SyntaxNode>,
    i: int,
    acc: Callable,
    state: Map<LocalRef, Callable>,
    results: Map<Seq<char>, Callable>,
    levels: nat,
    all: Set<Seq<char>>,
)
    requires
        names_within(scope.names, all),
        all_within(state, all),
        all_within(results, all),
        within(acc, all),
    ensures
        within(fields_from(scope, fields, i, acc, state, results, levels), all),
    decreases levels, 2int, fields.len() - i,
{
    if 0 <= i < fields.len() {
        let next = match part(fields[i], "name"@) {
            Some(name) => {
                let key = match text_of(scope.source, name) {
                    Some(key) => key,
                    None => Seq::empty(),
                };
                let inner = part(fields[i], "value"@);
                lemma_part_value(scope, inner, state, results, levels, all);
                lemma_with_member(
                    acc,
                    key,
                    part_value(scope, inner, state, results, levels),
                    all,
                );
                with_member(acc, key, part_value(scope, inner, state, results, levels))
            },
            None => acc,
        };
        lemma_fields_from(scope, fields, i + 1, next, state, results, levels, all);
    }
}

proof fn lemma_operation_value(
    scope: ScopeView,
    call: SyntaxNode,
    state: Map<LocalRef, Callable>,
    results: Map<Seq<char>, Callable>,
    levels: nat,
    all: Set<Seq<char>>,
)
    requires
        names_within(scope.names, all),
        all_within(state, all),
        all_within(results, all),
    ensures
        operation_value(scope, call, state, results, levels) matches Some(value) ==> within(
            value,
            all,
        ),
    decreases levels, 3int, 0int,
{
    let arguments = arguments_of(call);
    match nth(arguments, 0) {
        Some(first) => {
            lemma_value_of(scope, first, state, results, levels, all);
        },
        None => {},
    }
    match (receiver_of(call), method_field_of(call)) {
        (Some(receiver), Some(field)) => {
            lemma_value_of(scope, receiver, state, results, levels, all);
            match text_of(scope.source, field) {
                Some(name) => {
                    lemma_method_value(
                        scope,
                        arguments,
                        value_of(scope, receiver, state, results, levels),
                        method_of(name),
                        collection_at(scope, receiver),
                        is_library_name(scope, field),
                        state,
                        results,
                        levels,
                        all,
                    );
                },
                None => {},
            }
        },
        _ => {},
    }
}

proof fn lemma_method_value(
    scope: ScopeView,
    arguments: Seq<SyntaxNode>,
    collection: Callable,
    method: Method,
    kind: Option<CollectionKind>,
    library: bool,
    state: Map<LocalRef, Callable>,
    results: Map<Seq<char>, Callable>,
    levels: nat,
    all: Set<Seq<char>>,
)
    requires
        names_within(scope.names, all),
        all_within(state, all),
        all_within(results, all),
        within(collection, all),
    ensures
        method_value(
            scope,
            arguments,
            collection,
            method,
            kind,
            library,
            state,
            results,
            levels,
        ) matches Some(value) ==> within(value, all),
    decreases levels, 2int, 0int,
{
    lemma_member_of(collection, map_value_member(), all);
    lemma_member_of(collection, int_key(0), all);
    lemma_member_of(collection, "0"@, all);
    lemma_member_of(collection, "1"@, all);
    lemma_slots_of(collection, all);
    lemma_with_joined(shaped(), dynamic_member(), slots_of(collection), all);
    lemma_last_of(collection, all);
    lemma_looked_up(scope, collection, nth(arguments, 0), all);
    lemma_looked_up(scope, collection, None, all);
    match nth(arguments, 0) {
        Some(first) => {
            lemma_value_of(scope, first, state, results, levels, all);
            match nth(arguments, 1) {
                Some(second) => {
                    lemma_value_of(scope, second, state, results, levels, all);
                    lemma_stored(
                        scope,
                        collection,
                        first,
                        value_of(scope, second, state, results, levels),
                        all,
                    );
                },
                None => {},
            }
        },
        None => {},
    }
}

proof fn lemma_written(
    state: Map<LocalRef, Callable>,
    path: PathView,
    value: Callable,
    all: Set<Seq<char>>,
)
    requires
        all_within(state, all),
        within(value, all),
    ensures
        all_within(written(state, path, value), all),
{
    if state.contains_key(path.root) {
        assert(within(state[path.root], all));
    }
    lemma_with_path(held(state, path.root), path.members, value, all);
    let next = written(state, path, value);
    assert forall|k: LocalRef| next.contains_key(k) implies within(#[trigger] next[k], all) by {
        if k != path.root {
            assert(within(state[k], all));
        }
    }
}

proof fn lemma_changed_collection(
    scope: ScopeView,
    kind: CollectionKind,
    method: Method,
    arguments: Seq<SyntaxNode>,
    collection: Callable,
    state: Map<LocalRef, Callable>,
    results: Map<Seq<char>, Callable>,
    all: Set<Seq<char>>,
)
    requires
        names_within(scope.names, all),
        all_within(state, all),
        all_within(results, all),
        within(collection, all),
    ensures
        changed_collection(
            scope,
            kind,
            method,
            arguments,
            collection,
            state,
            results,
        ) matches Some(value) ==> within(value, all),
{
    let levels = MAX_VALUE_DEPTH as nat;
    lemma_with_popped(collection, all);
    lemma_member_of(collection, "1"@, all);
    match nth(arguments, 0) {
        Some(first) => {
            let one = value_of(scope, first, state, results, levels);
            lemma_value_of(scope, first, state, results, levels, all);
            lemma_with_pushed(collection, one, all);
            lemma_with_member(shaped(), "0"@, one, all);
            lemma_with_member(with_member(shaped(), "0"@, one), "1"@, collection, all);
            match key_of(scope, first) {
                Some(name) => {
                    let less = Callable {
                        members: collection.members.remove(name),
                        ..collection
                    };
                    assert(within(less, all)) by {
                        assert forall|k: Seq<char>| less.members.contains_key(k) implies within(
                            #[trigger] less.members[k],
                            all,
                        ) by {
                            assert(within(collection.members[k], all));
                        }
                    }
                },
                None => {},
            }
            match nth(arguments, 1) {
                Some(second) => {
                    let two = value_of(scope, second, state, results, levels);
                    lemma_value_of(scope, second, state, results, levels, all);
                    lemma_stored(scope, collection, second, one, all);
                    lemma_stored(scope, collection, first, two, all);
                    match key_of(scope, first) {
                        Some(name) => {
                            lemma_with_joined(collection, name, two, all);
                            lemma_join(unknown(), two, all);
                            lemma_with_member(collection, name, join(unknown(), two), all);
                        },
                        None => {},
                    }
                    lemma_with_joined(collection, dynamic_member(), two, all);
                },
                None => {},
            }
        },
        None => {},
    }
}

proof fn lemma_after_call(
    scope: ScopeView,
    call: SyntaxNode,
    state: Map<LocalRef, Callable>,
    results: Map<Seq<char>, Callable>,
    all: Set<Seq<char>>,
)
    requires
        names_within(scope.names, all),
        all_within(state, all),
        all_within(results, all),
    ensures
        all_within(after_call(scope, call, state, results), all),
{
    match (receiver_of(call), method_field_of(call)) {
        (Some(receiver), Some(field)) => match (
            collection_at(scope, receiver),
            text_of(scope.source, field),
            local_path(scope, receiver, None),
        ) {
            (Some(kind), Some(name), Some(path)) => {
                let levels = MAX_VALUE_DEPTH as nat;
                let collection = value_of(scope, receiver, state, results, levels);
                lemma_value_of(scope, receiver, state, results, levels, all);
                lemma_changed_collection(
                    scope,
                    kind,
                    method_of(name),
                    arguments_of(call),
                    collection,
                    state,
                    results,
                    all,
                );
                match changed_collection(
                    scope,
                    kind,
                    method_of(name),
                    arguments_of(call),
                    collection,
                    state,
                    results,
                ) {
                    Some(value) => {
                        lemma_written(state, path, value, all);
                    },
                    None => {},
                }
            },
            _ => {},
        },
        _ => {},
    }
}

proof fn lemma_after_collections(
    scope: ScopeView,
    node: SyntaxNode,
    state: Map<LocalRef, Callable>,
    results: Map<Seq<char>, Callable>,
    all: Set<Seq<char>>,
)
    requires
        names_within(scope.names, all),
        all_within(state, all),
        all_within(results, all),
    ensures
        all_within(after_collections(scope, node, state, results), all),
    decreases node, named(node).len() + 1,
{
    lemma_after_collections_from(scope, node, 0, state, results, all);
    lemma_after_call(
        scope,
        node,
        after_collections_from(scope, node, 0, state, results),
        results,
        all,
    );
}

proof fn lemma_after_collections_from(
    scope: ScopeView,
    node: SyntaxNode,
    i: int,
    state: Map<LocalRef, Callable>,
    results: Map<Seq<char>, Callable>,
    all: Set<Seq<char>>,
)
    requires
        names_within(scope.names, all),
        all_within(state, all),
        all_within(results, all),
    ensures
        all_within(after_collections_from(scope, node, i, state, results), all),
    decreases node, named(node).len() - i,
{
    if 0 <= i < named(node).len() {
        lemma_named(node, i);
        lemma_after_collections(scope, named(node)[i], state, results, all);
        lemma_after_collections_from(
            scope,
            node,
            i + 1,
            after_collections(scope, named(node)[i], state, results),
            results,
            all,
        );
    }
}

/// A call may call what its callee names or evaluates to.
pub proof fn lemma_called_value(
    scope: ScopeView,
    callee: SyntaxNode,
    state: Map<LocalRef, Callable>,
    results: Map<Seq<char>, Callable>,
    all: Set<Seq<char>>,
)
    requires
        names_within(scope.names, all),
        all_within(state, all),
        all_within(results, all),
    ensures
        within(called_value(scope, callee, state, results), all),
{
    lemma_direct_target(scope, callee, all);
    lemma_value_of(scope, callee, state, results, MAX_VALUE_DEPTH as nat, all);
}

/// The values to be stored name only targets of a set.
pub open spec fn updates_within(updates: Seq<UpdateView>, all: Set<Seq<char>>) -> bool {
    forall|i: int| 0 <= i < updates.len() ==> within((#[trigger] updates[i]).value, all)
}

/// The slots of callables name only targets of a set.
pub open spec fn slots_within(slots: Seq<Option<Callable>>, all: Set<Seq<char>>) -> bool {
    forall|i: int|
        0 <= i < slots.len() ==> (#[trigger] slots[i] matches Some(value) ==> within(value, all))
}

/// The slots of a table of callables name only targets of a set.
pub open spec fn tables_within(
    tables: Map<Seq<char>, Seq<Option<Callable>>>,
    all: Set<Seq<char>>,
) -> bool {
    forall|k: Seq<char>| tables.contains_key(k) ==> slots_within(#[trigger] tables[k], all)
}

proof fn lemma_outputs_from(
    scope: ScopeView,
    actuals: Seq<SyntaxNode>,
    outputs: Seq<Option<Callable>>,
    i: int,
    acc: Seq<UpdateView>,
    all: Set<Seq<char>>,
)
    requires
        slots_within(outputs, all),
        updates_within(acc, all),
    ensures
        updates_within(outputs_from(scope, actuals, outputs, i, acc), all),
    decreases actuals.len() - i,
{
    if 0 <= i < actuals.len() && i < outputs.len() {
        let next = match (outputs[i], local_path(scope, actuals[i], None)) {
            (Some(output), Some(path)) => if output.bottom {
                acc
            } else {
                let at = update_from(acc, path, 0);
                if 0 <= at < acc.len() {
                    lemma_join(acc[at].value, output, all);
                }
                with_update(acc, path, output)
            },
            _ => acc,
        };
        assert(updates_within(next, all));
        lemma_outputs_from(scope, actuals, outputs, i + 1, next, all);
    }
}

proof fn lemma_updates_from(
    scope: ScopeView,
    call: SyntaxNode,
    targets: Seq<Seq<char>>,
    mutations: Map<Seq<char>, Seq<Option<Callable>>>,
    i: int,
    acc: Seq<UpdateView>,
    all: Set<Seq<char>>,
)
    requires
        tables_within(mutations, all),
        updates_within(acc, all),
    ensures
        updates_within(updates_from(scope, call, targets, mutations, i, acc), all),
    decreases targets.len() - i,
{
    if 0 <= i < targets.len() {
        let next = if mutations.contains_key(targets[i]) {
            let outputs = mutations[targets[i]];
            assert(slots_within(outputs, all));
            let actuals = actuals_for(receiver_of(call), arguments_of(call), outputs.len());
            lemma_outputs_from(scope, actuals, outputs, 0, acc, all);
            outputs_from(scope, actuals, outputs, 0, acc)
        } else {
            acc
        };
        lemma_updates_from(scope, call, targets, mutations, i + 1, next, all);
    }
}

proof fn lemma_updated_from(
    state: Map<LocalRef, Callable>,
    updates: Seq<UpdateView>,
    i: int,
    all: Set<Seq<char>>,
)
    requires
        all_within(state, all),
        updates_within(updates, all),
    ensures
        all_within(updated_from(state, updates, i), all),
    decreases updates.len() - i,
{
    if 0 <= i < updates.len() {
        lemma_written(state, updates[i].path, updates[i].value, all);
        lemma_updated_from(
            written(state, updates[i].path, updates[i].value),
            updates,
            i + 1,
            all,
        );
    }
}

proof fn lemma_after_outputs(
    scope: ScopeView,
    node: SyntaxNode,
    state: Map<LocalRef, Callable>,
    results: Map<Seq<char>, Callable>,
    mutations: Map<Seq<char>, Seq<Option<Callable>>>,
    all: Set<Seq<char>>,
)
    requires
        names_within(scope.names, all),
        all_within(state, all),
        tables_within(mutations, all),
    ensures
        all_within(after_outputs(scope, node, state, results, mutations), all),
    decreases node, named(node).len() + 1,
{
    lemma_after_outputs_from(scope, node, 0, state, results, mutations, all);
    let inner = after_outputs_from(scope, node, 0, state, results, mutations);
    match part(node, "callee"@) {
        Some(callee) => {
            let called = called_value(scope, callee, inner, results);
            let targets = ascending::<String>(called.targets);
            lemma_updates_from(scope, node, targets, mutations, 0, Seq::empty(), all);
            lemma_updated_from(
                inner,
                updates_from(scope, node, targets, mutations, 0, Seq::empty()),
                0,
                all,
            );
        },
        None => {},
    }
}

proof fn lemma_after_outputs_from(
    scope: ScopeView,
    node: SyntaxNode,
    i: int,
    state: Map<LocalRef, Callable>,
    results: Map<Seq<char>, Callable>,
    mutations: Map<Seq<char>, Seq<Option<Callable>>>,
    all: Set<Seq<char>>,
)
    requires
        names_within(scope.names, all),
        all_within(state, all),
        tables_within(mutations, all),
    ensures
        all_within(after_outputs_from(scope, node, i, state, results, mutations), all),
    decreases node, named(node).len() - i,
{
    if 0 <= i < named(node).len() {
        lemma_named(node, i);
        lemma_after_outputs(scope, named(node)[i], state, results, mutations, all);
        lemma_after_outputs_from(
            scope,
            node,
            i + 1,
            after_outputs(scope, named(node)[i], state, results, mutations),
            results,
            mutations,
            all,
        );
    }
}

proof fn lemma_assignments(
    scope: ScopeView,
    target: SyntaxNode,
    value: Callable,
    writes: Seq<LocalRef>,
    all: Set<Seq<char>>,
)
    requires
        within(value, all),
    ensures
        updates_within(assignments(scope, target, value, writes), all),
    decreases target, named(target).len() + 1,
{
    lemma_assignments_from(scope, target, 0, value, writes, Seq::empty(), all);
    lemma_declared(scope, target, value, all);
}

proof fn lemma_more_within(acc: Seq<UpdateView>, more: Seq<UpdateView>, all: Set<Seq<char>>)
    requires
        updates_within(acc, all),
        updates_within(more, all),
    ensures
        updates_within(acc + more, all),
{
    assert forall|j: int| 0 <= j < (acc + more).len() implies within(
        (#[trigger] (acc + more)[j]).value,
        all,
    ) by {
        if j < acc.len() {
            assert(within(acc[j].value, all));
        } else {
            assert(within(more[j - acc.len()].value, all));
        }
    }
}

proof fn lemma_slot_at(value: Callable, i: nat, all: Set<Seq<char>>)
    requires
        within(value, all),
    ensures
        within(slot_at(value, i), all),
{
    lemma_member_of(value, int_key(i), all);
    lemma_member_of(value, decimal(i), all);
}

proof fn lemma_declared(
    scope: ScopeView,
    pattern: SyntaxNode,
    value: Callable,
    all: Set<Seq<char>>,
)
    requires
        within(value, all),
    ensures
        updates_within(declared(scope, pattern, value), all),
    decreases pattern, named(pattern).len() + 1,
{
    lemma_declared_from(scope, pattern, 0, value, Seq::empty(), all);
}

proof fn lemma_declared_from(
    scope: ScopeView,
    pattern: SyntaxNode,
    i: int,
    value: Callable,
    acc: Seq<UpdateView>,
    all: Set<Seq<char>>,
)
    requires
        within(value, all),
        updates_within(acc, all),
    ensures
        updates_within(declared_from(scope, pattern, i, value, acc), all),
    decreases pattern, named(pattern).len() - i,
{
    if 0 <= i < named(pattern).len() {
        lemma_named(pattern, i);
        lemma_slot_at(value, i as nat, all);
        let part = if takes_apart(pattern) {
            slot_at(value, i as nat)
        } else {
            value
        };
        let more = declared(scope, named(pattern)[i], part);
        lemma_declared(scope, named(pattern)[i], part, all);
        lemma_more_within(acc, more, all);
        lemma_declared_from(scope, pattern, i + 1, value, acc + more, all);
    }
}

proof fn lemma_assignments_from(
    scope: ScopeView,
    target: SyntaxNode,
    i: int,
    value: Callable,
    writes: Seq<LocalRef>,
    acc: Seq<UpdateView>,
    all: Set<Seq<char>>,
)
    requires
        within(value, all),
        updates_within(acc, all),
    ensures
        updates_within(assignments_from(scope, target, i, value, writes, acc), all),
    decreases target, named(target).len() - i,
{
    if 0 <= i < named(target).len() {
        lemma_named(target, i);
        lemma_slot_at(value, i as nat, all);
        let slot = slot_at(value, i as nat);
        lemma_assignments(scope, named(target)[i], slot, writes, all);
        let more = assignments(scope, named(target)[i], slot, writes);
        lemma_more_within(acc, more, all);
        lemma_assignments_from(scope, target, i + 1, value, writes, acc + more, all);
    }
}

proof fn lemma_forgotten_from(
    state: Map<LocalRef, Callable>,
    locals: Seq<LocalRef>,
    i: int,
    all: Set<Seq<char>>,
)
    requires
        all_within(state, all),
    ensures
        all_within(forgotten_from(state, locals, i), all),
    decreases locals.len() - i,
{
    if 0 <= i < locals.len() {
        let next = state.insert(locals[i], unknown());
        assert forall|k: LocalRef| next.contains_key(k) implies within(#[trigger] next[k], all) by {
            if k != locals[i] {
                assert(within(state[k], all));
            }
        }
        lemma_forgotten_from(next, locals, i + 1, all);
    }
}

proof fn lemma_assigned_from(
    state: Map<LocalRef, Callable>,
    before: Map<LocalRef, Callable>,
    updates: Seq<UpdateView>,
    i: int,
    all: Set<Seq<char>>,
)
    requires
        all_within(state, all),
        all_within(before, all),
        updates_within(updates, all),
    ensures
        all_within(assigned_from(state, before, updates, i), all),
    decreases updates.len() - i,
{
    if 0 <= i < updates.len() {
        let next = written(before, updates[i].path, updates[i].value);
        let root = updates[i].path.root;
        lemma_written(before, updates[i].path, updates[i].value, all);
        assert(within(next[root], all));
        let after = state.insert(root, next[root]);
        assert forall|k: LocalRef| after.contains_key(k) implies within(#[trigger] after[k], all) by {
            if k != root {
                assert(within(state[k], all));
            }
        }
        lemma_assigned_from(after, next, updates, i + 1, all);
    }
}

proof fn lemma_transferred(
    scope: ScopeView,
    node: FlowNode,
    state: Map<LocalRef, Callable>,
    results: Map<Seq<char>, Callable>,
    mutations: Map<Seq<char>, Seq<Option<Callable>>>,
    all: Set<Seq<char>>,
)
    requires
        names_within(scope.names, all),
        all_within(state, all),
        all_within(results, all),
        tables_within(mutations, all),
    ensures
        all_within(transferred(scope, node, state, results, mutations), all),
{
    match node.span {
        None => {},
        Some(span) => {
            let cleared = forgotten_from(state, node.writes@, 0);
            lemma_forgotten_from(state, node.writes@, 0, all);
            match node_under(scope, span) {
                None => {},
                Some(syntax) => {
                    let middle = after_collections(scope, syntax, cleared, results);
                    lemma_after_collections(scope, syntax, cleared, results, all);
                    lemma_after_outputs(scope, syntax, middle, results, mutations, all);
                    match (part(syntax, "left"@), part(syntax, "right"@)) {
                        (Some(left), Some(right)) => {
                            let levels = MAX_VALUE_DEPTH as nat;
                            lemma_value_of(scope, right, state, results, levels, all);
                            lemma_assignments(
                                scope,
                                left,
                                value_of(scope, right, state, results, levels),
                                node.writes@,
                                all,
                            );
                        },
                        _ => {},
                    }
                    lemma_assigned_from(
                        after_outputs(scope, syntax, middle, results, mutations),
                        state,
                        node_assignments(scope, syntax, node.writes@, state, results),
                        0,
                        all,
                    );
                },
            }
        },
    }
}

/// The known states name only targets of a set.
pub open spec fn states_within(
    states: Seq<Option<Map<LocalRef, Callable>>>,
    all: Set<Seq<char>>,
) -> bool {
    forall|i: int|
        0 <= i < states.len() ==> (#[trigger] states[i] matches Some(state) ==> all_within(
            state,
            all,
        ))
}

proof fn lemma_merged_states(
    current: Map<LocalRef, Callable>,
    incoming: Map<LocalRef, Callable>,
    all: Set<Seq<char>>,
)
    requires
        all_within(current, all),
        all_within(incoming, all),
    ensures
        all_within(merged_states(current, incoming), all),
{
    let merged = merged_states(current, incoming);
    assert forall|k: LocalRef| merged.contains_key(k) implies within(#[trigger] merged[k], all) by {
        if current.contains_key(k) {
            assert(within(current[k], all));
        }
        if incoming.contains_key(k) {
            assert(within(incoming[k], all));
            lemma_join(held(current, k), incoming[k], all);
        }
    }
}

proof fn lemma_followed_from(
    edges: Seq<FlowEdge>,
    node: usize,
    state: Map<LocalRef, Callable>,
    next: Map<LocalRef, Callable>,
    i: int,
    progress: Progress,
    all: Set<Seq<char>>,
)
    requires
        all_within(state, all),
        all_within(next, all),
        states_within(progress.states, all),
        forall|j: int| 0 <= j < edges.len() ==> (#[trigger] edges[j]).to < progress.states.len(),
        forall|j: int|
            0 <= j < progress.work.len() ==> (#[trigger] progress.work[j]) < progress.states.len(),
    ensures
        ({
            let after = followed_from(edges, node, state, next, i, progress);
            &&& states_within(after.states, all)
            &&& after.states.len() == progress.states.len()
            &&& forall|j: int|
                0 <= j < after.work.len() ==> (#[trigger] after.work[j]) < after.states.len()
        }),
    decreases edges.len() - i,
{
    if 0 <= i < edges.len() {
        let middle = if edges[i].from == node {
            let to = edges[i].to;
            let flow = passed(edges[i], state, next);
            match progress.states[to as int] {
                Some(existing) => {
                    lemma_merged_states(existing, flow, all);
                },
                None => {},
            }
            reached(progress, to, flow)
        } else {
            progress
        };
        assert(states_within(middle.states, all));
        lemma_followed_from(edges, node, state, next, i + 1, middle, all);
    }
}

proof fn lemma_settled_states(
    scope: ScopeView,
    graph: FlowGraph,
    results: Map<Seq<char>, Callable>,
    mutations: Map<Seq<char>, Seq<Option<Callable>>>,
    progress: Progress,
    steps: nat,
    all: Set<Seq<char>>,
)
    requires
        names_within(scope.names, all),
        all_within(results, all),
        tables_within(mutations, all),
        graph_ok(graph),
        progress.states.len() == graph.nodes@.len(),
        states_within(progress.states, all),
        forall|j: int|
            0 <= j < progress.work.len() ==> (#[trigger] progress.work[j]) < graph.nodes@.len(),
    ensures
        settled_states(scope, graph, results, mutations, progress, steps) matches Some(states)
            ==> states_within(states, all) && states.len() == graph.nodes@.len(),
    decreases steps,
{
    if progress.work.len() > 0 && steps > 0 {
        let node = progress.work[0];
        let rest = Progress { work: progress.work.drop_first(), ..progress };
        assert forall|j: int| 0 <= j < rest.work.len() implies (#[trigger] rest.work[j])
            < graph.nodes@.len() by {
            assert(rest.work[j] == progress.work[j + 1]);
        }
        match progress.states[node as int] {
            Some(state) => {
                let next = transferred(
                    scope,
                    graph.nodes@[node as int],
                    state,
                    results,
                    mutations,
                );
                lemma_transferred(
                    scope,
                    graph.nodes@[node as int],
                    state,
                    results,
                    mutations,
                    all,
                );
                lemma_followed_from(graph.edges@, node, state, next, 0, rest, all);
            },
            None => {},
        }
        lemma_settled_states(
            scope,
            graph,
            results,
            mutations,
            stepped(scope, graph, results, mutations, progress),
            (steps - 1) as nat,
            all,
        );
    }
}

/// The states of a callable name only targets that its start, the results and the names provide.
pub proof fn lemma_flow_states(
    scope: ScopeView,
    graph: FlowGraph,
    results: Map<Seq<char>, Callable>,
    mutations: Map<Seq<char>, Seq<Option<Callable>>>,
    initial: Map<LocalRef, Callable>,
    all: Set<Seq<char>>,
)
    requires
        names_within(scope.names, all),
        all_within(results, all),
        tables_within(mutations, all),
        graph_ok(graph),
        all_within(initial, all),
    ensures
        flow_states(scope, graph, results, mutations, initial) matches Some(states)
            ==> states_within(states, all) && states.len() == graph.nodes@.len(),
{
    lemma_settled_states(
        scope,
        graph,
        results,
        mutations,
        started(graph, initial),
        MAX_STEPS as nat,
        all,
    );
}

/// A summary names only targets of a set.
pub open spec fn summary_within(summary: SummaryView, all: Set<Seq<char>>) -> bool {
    &&& tables_within(summary.parameters, all)
    &&& all_within(summary.results, all)
    &&& tables_within(summary.mutations, all)
    &&& captures_within(summary.captures, all)
}

/// The captures of lambdas name only targets of a set.
pub open spec fn captures_within(
    captures: Map<Seq<char>, Map<LocalRef, Callable>>,
    all: Set<Seq<char>>,
) -> bool {
    forall|k: Seq<char>| captures.contains_key(k) ==> all_within(#[trigger] captures[k], all)
}

/// Call sites list only targets of a set.
pub open spec fn sites_within(sites: Seq<CallSiteView>, all: Set<Seq<char>>) -> bool {
    forall|i: int, t: Seq<char>|
        0 <= i < sites.len() && #[trigger] sites[i].targets.contains(t) ==> all.contains(t)
}

/// What a pass finds names only targets of a set.
pub open spec fn analysis_within(found: AnalysisView, all: Set<Seq<char>>) -> bool {
    summary_within(found.summary, all) && sites_within(found.call_sites, all)
}

proof fn lemma_parameters_from(
    parameters: Seq<LocalRef>,
    values: Option<Seq<Option<Callable>>>,
    external: bool,
    i: int,
    state: Map<LocalRef, Callable>,
    all: Set<Seq<char>>,
)
    requires
        values matches Some(slots) ==> slots_within(slots, all),
        all_within(state, all),
    ensures
        all_within(parameters_from(parameters, values, external, i, state), all),
    decreases parameters.len() - i,
{
    if 0 <= i < parameters.len() {
        let value = parameter_value(values, i, external);
        assert(within(value, all));
        let next = state.insert(parameters[i], value);
        assert forall|k: LocalRef| next.contains_key(k) implies within(#[trigger] next[k], all) by {
            if k != parameters[i] {
                assert(within(state[k], all));
            }
        }
        lemma_parameters_from(parameters, values, external, i + 1, next, all);
    }
}

proof fn lemma_captured(
    values: Map<LocalRef, Callable>,
    local: LocalRef,
    external: bool,
    all: Set<Seq<char>>,
)
    requires
        all_within(values, all),
    ensures
        within(captured(values, local, external), all),
{
    if values.contains_key(local) {
        assert(within(values[local], all));
    }
}

proof fn lemma_captures_from(
    captures: Seq<LocalRef>,
    values: Map<LocalRef, Callable>,
    external: bool,
    i: int,
    state: Map<LocalRef, Callable>,
    all: Set<Seq<char>>,
)
    requires
        all_within(values, all),
        all_within(state, all),
    ensures
        all_within(captures_from(captures, values, external, i, state), all),
    decreases captures.len() - i,
{
    if 0 <= i < captures.len() {
        lemma_captured(values, captures[i], external, all);
        let next = state.insert(captures[i], captured(values, captures[i], external));
        assert forall|k: LocalRef| next.contains_key(k) implies within(#[trigger] next[k], all) by {
            if k != captures[i] {
                assert(within(state[k], all));
            }
        }
        lemma_captures_from(captures, values, external, i + 1, next, all);
    }
}

proof fn lemma_captures_of(
    captures: Map<Seq<char>, Map<LocalRef, Callable>>,
    id: Seq<char>,
    all: Set<Seq<char>>,
)
    requires
        captures_within(captures, all),
    ensures
        all_within(captures_of(captures, id), all),
{
    if captures.contains_key(id) {
        assert(all_within(captures[id], all));
    }
}

proof fn lemma_entry_state(
    definition: DefinitionView,
    id: Seq<char>,
    summary: SummaryView,
    external: bool,
    all: Set<Seq<char>>,
)
    requires
        summary_within(summary, all),
    ensures
        all_within(entry_state(definition, id, summary, external), all),
{
    let first = forgotten_from(Map::empty(), definition.graph.locals@, 0);
    lemma_forgotten_from(Map::empty(), definition.graph.locals@, 0, all);
    let values = entry(summary.parameters, id);
    if summary.parameters.contains_key(id) {
        assert(slots_within(summary.parameters[id], all));
    }
    lemma_parameters_from(definition.parameters, values, external, 0, first, all);
    lemma_captures_of(summary.captures, id, all);
    lemma_captures_from(
        definition.captures,
        captures_of(summary.captures, id),
        external,
        0,
        parameters_from(definition.parameters, values, external, 0, first),
        all,
    );
}

proof fn lemma_outputs_of(
    definition: DefinitionView,
    exit: Option<Map<LocalRef, Callable>>,
    all: Set<Seq<char>>,
)
    requires
        exit matches Some(state) ==> all_within(state, all),
    ensures
        slots_within(outputs_of(definition, exit), all),
{
    let outputs = outputs_of(definition, exit);
    assert forall|i: int| 0 <= i < outputs.len() implies (#[trigger] outputs[i] matches Some(value)
        ==> within(value, all)) by {
        match exit {
            Some(state) => {
                if i < definition.parameters.len() && state.contains_key(definition.parameters[i]) {
                    assert(within(state[definition.parameters[i]], all));
                }
            },
            None => {},
        }
    }
}

proof fn lemma_returned_from(
    scope: ScopeView,
    nodes: Seq<FlowNode>,
    states: Seq<Option<Map<LocalRef, Callable>>>,
    results: Map<Seq<char>, Callable>,
    i: int,
    acc: Option<Callable>,
    all: Set<Seq<char>>,
)
    requires
        names_within(scope.names, all),
        all_within(results, all),
        states_within(states, all),
        states.len() == nodes.len(),
        acc matches Some(value) ==> within(value, all),
    ensures
        returned_from(scope, nodes, states, results, i, acc) matches Some(value) ==> within(
            value,
            all,
        ),
    decreases nodes.len() - i,
{
    if 0 <= i < nodes.len() {
        let next = match (nodes[i].kind, states[i]) {
            (FlowKind::Return, Some(state)) => {
                let value = statement_value(scope, nodes[i], state, results);
                match nodes[i].span {
                    Some(span) => match node_under(scope, span) {
                        Some(statement) => match part(statement, "body"@) {
                            Some(body) => {
                                lemma_value_of(
                                    scope,
                                    body,
                                    state,
                                    results,
                                    MAX_VALUE_DEPTH as nat,
                                    all,
                                );
                            },
                            None => {},
                        },
                        None => {},
                    },
                    None => {},
                }
                assert(within(value, all));
                match acc {
                    Some(held) => {
                        lemma_join(held, value, all);
                    },
                    None => {},
                }
                Some(join_optional(acc, value))
            },
            _ => acc,
        };
        lemma_returned_from(scope, nodes, states, results, i + 1, next, all);
    }
}

proof fn lemma_snapshot_from(
    locals: Seq<LocalRef>,
    state: Map<LocalRef, Callable>,
    external: bool,
    i: int,
    acc: Map<LocalRef, Callable>,
    all: Set<Seq<char>>,
)
    requires
        all_within(state, all),
        all_within(acc, all),
    ensures
        all_within(snapshot_from(locals, state, external, i, acc), all),
    decreases locals.len() - i,
{
    if 0 <= i < locals.len() {
        let current = if acc.contains_key(locals[i]) {
            acc[locals[i]]
        } else {
            not_reached()
        };
        if acc.contains_key(locals[i]) {
            assert(within(acc[locals[i]], all));
        }
        let value = captured(state, locals[i], external);
        lemma_captured(state, locals[i], external, all);
        lemma_join(current, value, all);
        let next = acc.insert(locals[i], join(current, value));
        assert forall|k: LocalRef| next.contains_key(k) implies within(#[trigger] next[k], all) by {
            if k != locals[i] {
                assert(within(acc[k], all));
            }
        }
        lemma_snapshot_from(locals, state, external, i + 1, next, all);
    }
}

proof fn lemma_state_at(
    graph: FlowGraph,
    states: Seq<Option<Map<LocalRef, Callable>>>,
    span: Span,
    all: Set<Seq<char>>,
)
    requires
        states_within(states, all),
        states.len() == graph.nodes@.len(),
    ensures
        state_at(graph, states, span) matches Some(state) ==> all_within(state, all),
{
    enclosing_is_shortest(graph, span);
}

proof fn lemma_creations_from(
    program: ProgramView,
    id: Seq<char>,
    states: Seq<Option<Map<LocalRef, Callable>>>,
    external: bool,
    i: int,
    acc: Map<Seq<char>, Map<LocalRef, Callable>>,
    all: Set<Seq<char>>,
)
    requires
        states_within(states, all),
        states.len() == program.definitions[id].graph.nodes@.len(),
        captures_within(acc, all),
    ensures
        captures_within(creations_from(program, id, states, external, i, acc), all),
    decreases program.creations.len() - i,
{
    if 0 <= i < program.creations.len() {
        let creation = program.creations[i];
        let lambda = creation.lambda;
        let graph = program.definitions[id].graph;
        lemma_state_at(graph, states, creation.span, all);
        let next = if creation.owner == id && program.definitions.contains_key(lambda) {
            let locals = program.definitions[lambda].captures;
            match state_at(graph, states, creation.span) {
                Some(state) => if locals.len() > 0 {
                    let held = captures_of(acc, lambda);
                    lemma_captures_of(acc, lambda, all);
                    lemma_snapshot_from(locals, state, external, 0, held, all);
                    acc.insert(lambda, snapshot_from(locals, state, external, 0, held))
                } else {
                    acc
                },
                None => acc,
            }
        } else {
            acc
        };
        assert(captures_within(next, all));
        lemma_creations_from(program, id, states, external, i + 1, next, all);
    }
}

/// Each value of a list names only targets of a set.
pub open spec fn each_within(values: Seq<Callable>, all: Set<Seq<char>>) -> bool {
    forall|i: int| 0 <= i < values.len() ==> within(#[trigger] values[i], all)
}

proof fn lemma_argument_values_from(
    scope: ScopeView,
    arguments: Seq<SyntaxNode>,
    state: Map<LocalRef, Callable>,
    results: Map<Seq<char>, Callable>,
    i: int,
    acc: Seq<Callable>,
    all: Set<Seq<char>>,
)
    requires
        names_within(scope.names, all),
        all_within(state, all),
        all_within(results, all),
        each_within(acc, all),
    ensures
        each_within(argument_values_from(scope, arguments, state, results, i, acc), all),
    decreases arguments.len() - i,
{
    if 0 <= i < arguments.len() {
        let levels = MAX_VALUE_DEPTH as nat;
        lemma_value_of(scope, arguments[i], state, results, levels, all);
        let next = acc.push(value_of(scope, arguments[i], state, results, levels));
        lemma_argument_values_from(scope, arguments, state, results, i + 1, next, all);
    }
}

proof fn lemma_passed_values(
    program: ProgramView,
    scope: ScopeView,
    call: SyntaxNode,
    state: Map<LocalRef, Callable>,
    results: Map<Seq<char>, Callable>,
    direct: Option<Seq<char>>,
    all: Set<Seq<char>>,
)
    requires
        names_within(scope.names, all),
        all_within(state, all),
        all_within(results, all),
    ensures
        each_within(passed_values(program, scope, call, state, results, direct), all),
{
    match receiver_of(call) {
        Some(receiver) => {
            let levels = MAX_VALUE_DEPTH as nat;
            lemma_value_of(scope, receiver, state, results, levels, all);
            let front = Seq::empty().push(value_of(scope, receiver, state, results, levels));
            lemma_argument_values_from(
                scope,
                arguments_of(call),
                state,
                results,
                0,
                front,
                all,
            );
        },
        None => {},
    }
    lemma_argument_values_from(
        scope,
        arguments_of(call),
        state,
        results,
        0,
        Seq::empty(),
        all,
    );
}

proof fn lemma_targets_from(
    targets: Seq<Seq<char>>,
    arguments: Seq<Callable>,
    i: int,
    acc: Map<Seq<char>, Seq<Option<Callable>>>,
    all: Set<Seq<char>>,
)
    requires
        each_within(arguments, all),
        tables_within(acc, all),
    ensures
        tables_within(targets_from(targets, arguments, i, acc), all),
    decreases targets.len() - i,
{
    if 0 <= i < targets.len() {
        let next = if acc.contains_key(targets[i]) {
            let slots = acc[targets[i]];
            assert(slots_within(slots, all));
            let filled = with_arguments(slots, arguments);
            assert forall|j: int| 0 <= j < filled.len() implies (#[trigger] filled[j] matches Some(
                value,
            ) ==> within(value, all)) by {
                if j < arguments.len() {
                    assert(within(arguments[j], all));
                    match slots[j] {
                        Some(held) => {
                            lemma_join(held, arguments[j], all);
                        },
                        None => {},
                    }
                }
            }
            acc.insert(targets[i], filled)
        } else {
            acc
        };
        assert(tables_within(next, all));
        lemma_targets_from(targets, arguments, i + 1, next, all);
    }
}

proof fn lemma_with_call(
    program: ProgramView,
    call: ProgramCallView,
    node: SyntaxNode,
    callee: SyntaxNode,
    state: Map<LocalRef, Callable>,
    results: Map<Seq<char>, Callable>,
    acc: AnalysisView,
    all: Set<Seq<char>>,
)
    requires
        names_within(program.names, all),
        all_within(state, all),
        all_within(results, all),
        analysis_within(acc, all),
    ensures
        analysis_within(with_call(program, call, node, callee, state, results, acc), all),
{
    let scope = scope_in(program, call.file);
    let direct = direct_target(scope, callee);
    let called = called_value(scope, callee, state, results);
    lemma_called_value(scope, callee, state, results, all);
    lemma_passed_values(program, scope, node, state, results, direct, all);
    let targets = ascending::<String>(called.targets);
    lemma_targets_from(
        targets,
        passed_values(program, scope, node, state, results, direct),
        0,
        acc.summary.parameters,
        all,
    );
    let after = with_call(program, call, node, callee, state, results, acc);
    lemma_ascending::<String>(called.targets);
    assert forall|i: int, t: Seq<char>|
        0 <= i < after.call_sites.len() && #[trigger] after.call_sites[i].targets.contains(
            t,
        ) implies all.contains(t) by {
        if i < acc.call_sites.len() {
            assert(acc.call_sites[i].targets.contains(t));
        } else {
            assert(targets.to_set().contains(t));
        }
    }
}

proof fn lemma_with_idle_call(
    program: ProgramView,
    call: ProgramCallView,
    callee: SyntaxNode,
    acc: AnalysisView,
    all: Set<Seq<char>>,
)
    requires
        names_within(program.names, all),
        analysis_within(acc, all),
    ensures
        analysis_within(with_idle_call(program, call, callee, acc), all),
{
    let scope = scope_in(program, call.file);
    let called = idle_value(scope, callee);
    lemma_direct_target(scope, callee, all);
    lemma_ascending::<String>(called.targets);
    let targets = ascending::<String>(called.targets);
    let after = with_idle_call(program, call, callee, acc);
    assert forall|i: int, t: Seq<char>|
        0 <= i < after.call_sites.len() && #[trigger] after.call_sites[i].targets.contains(
            t,
        ) implies all.contains(t) by {
        if i < acc.call_sites.len() {
            assert(acc.call_sites[i].targets.contains(t));
        } else {
            assert(targets.to_set().contains(t));
        }
    }
}

proof fn lemma_calls_from(
    program: ProgramView,
    id: Seq<char>,
    states: Seq<Option<Map<LocalRef, Callable>>>,
    results: Map<Seq<char>, Callable>,
    i: int,
    acc: AnalysisView,
    all: Set<Seq<char>>,
)
    requires
        names_within(program.names, all),
        states_within(states, all),
        states.len() == program.definitions[id].graph.nodes@.len(),
        all_within(results, all),
        analysis_within(acc, all),
    ensures
        analysis_within(calls_from(program, id, states, results, i, acc), all),
    decreases program.calls.len() - i,
{
    if 0 <= i < program.calls.len() {
        let call = program.calls[i];
        let scope = scope_in(program, call.file);
        let graph = program.definitions[id].graph;
        enclosing_is_shortest(graph, call.span);
        if call.caller == id {
            match (enclosing_node(graph, call.span), node_under(scope, call.span)) {
                (Some(at), Some(node)) => match part(node, "callee"@) {
                    Some(callee) => match states[at] {
                        Some(state) => {
                            lemma_with_call(program, call, node, callee, state, results, acc, all);
                        },
                        None => {
                            lemma_with_idle_call(program, call, callee, acc, all);
                        },
                    },
                    None => {},
                },
                _ => {},
            }
        }
        let next = with_call_at(program, id, states, results, i, acc);
        lemma_calls_from(program, id, states, results, i + 1, next, all);
    }
}

proof fn lemma_with_definition(
    program: ProgramView,
    id: Seq<char>,
    summary: SummaryView,
    external: bool,
    states: Seq<Option<Map<LocalRef, Callable>>>,
    acc: AnalysisView,
    all: Set<Seq<char>>,
)
    requires
        names_within(program.names, all),
        summary_within(summary, all),
        program_ok(program),
        program.definitions.contains_key(id),
        states_within(states, all),
        states.len() == program.definitions[id].graph.nodes@.len(),
        analysis_within(acc, all),
    ensures
        analysis_within(with_definition(program, id, summary, external, states, acc), all),
{
    let definition = program.definitions[id];
    let scope = scope_in(program, definition.file);
    let exit = states[definition.graph.exit as int];
    lemma_returned_from(
        scope,
        definition.graph.nodes@,
        states,
        summary.results,
        0,
        None,
        all,
    );
    lemma_outputs_of(definition, exit, all);
    lemma_creations_from(program, id, states, external, 0, acc.summary.captures, all);
    let value = return_value(scope, definition.graph, states, summary.results);
    assert(within(value, all));
    let middle = with_outcome(program, id, summary, external, states, acc);
    assert(all_within(middle.summary.results, all)) by {
        assert forall|k: Seq<char>| middle.summary.results.contains_key(k) implies within(
            #[trigger] middle.summary.results[k],
            all,
        ) by {
            if k != id {
                assert(within(acc.summary.results[k], all));
            }
        }
    }
    assert(tables_within(middle.summary.mutations, all));
    lemma_calls_from(program, id, states, summary.results, 0, middle, all);
}

proof fn lemma_analyzed_from(
    program: ProgramView,
    summary: SummaryView,
    external: bool,
    ids: Seq<Seq<char>>,
    i: int,
    acc: AnalysisView,
    all: Set<Seq<char>>,
)
    requires
        names_within(program.names, all),
        summary_within(summary, all),
        program_ok(program),
        forall|j: int| 0 <= j < ids.len() ==> program.definitions.contains_key(#[trigger] ids[j]),
        analysis_within(acc, all),
    ensures
        analyzed_from(program, summary, external, ids, i, acc) matches Some(found)
            ==> analysis_within(found, all),
    decreases ids.len() - i,
{
    if 0 <= i < ids.len() {
        let id = ids[i];
        let definition = program.definitions[id];
        assert(program.definitions.contains_key(id));
        lemma_entry_state(definition, id, summary, external, all);
        lemma_flow_states(
            scope_in(program, definition.file),
            definition.graph,
            summary.results,
            summary.mutations,
            entry_state(definition, id, summary, external),
            all,
        );
        match definition_states(program, id, summary, external) {
            Some(states) => {
                lemma_with_definition(program, id, summary, external, states, acc, all);
                lemma_analyzed_from(
                    program,
                    summary,
                    external,
                    ids,
                    i + 1,
                    with_definition(program, id, summary, external, states, acc),
                    all,
                );
            },
            None => {},
        }
    }
}

proof fn lemma_analyzed(
    program: ProgramView,
    summary: SummaryView,
    external: bool,
    all: Set<Seq<char>>,
)
    requires
        names_within(program.names, all),
        summary_within(summary, all),
        program_ok(program),
        program.definitions.dom().finite(),
    ensures
        analyzed(program, summary, external) matches Some(found) ==> analysis_within(found, all),
{
    let first = blank(program);
    lemma_keys_listed(program.definitions);
    lemma_analyzed_from(
        program,
        summary,
        external,
        ascending::<String>(program.definitions.dom()),
        0,
        first,
        all,
    );
}

proof fn lemma_passes(
    program: ProgramView,
    external: bool,
    found: AnalysisView,
    rounds: nat,
    all: Set<Seq<char>>,
)
    requires
        names_within(program.names, all),
        program_ok(program),
        program.definitions.dom().finite(),
        analysis_within(found, all),
    ensures
        passes(program, external, found, rounds) matches Some(end) ==> analysis_within(end, all),
    decreases rounds,
{
    if rounds > 0 {
        lemma_analyzed(program, found.summary, external, all);
        match analyzed(program, found.summary, external) {
            Some(next) => {
                if next.summary != found.summary {
                    lemma_passes(program, external, next, (rounds - 1) as nat, all);
                }
            },
            None => {},
        }
    }
}

/// The ids of the callables and lambdas that names stand for.
pub open spec fn callable_ids(names: NamesView) -> Set<Seq<char>> {
    Set::new(
        |id: Seq<char>|
            {
                ||| exists|symbol: SymbolRef|
                    names.callables.contains(symbol) && names.symbol_ids.contains_key(symbol)
                        && #[trigger] names.symbol_ids[symbol] == id
                ||| exists|key: SpanKey|
                    names.lambda_ids.contains_key(key) && #[trigger] names.lambda_ids[key] == id
            },
    )
}

/// No target is invented: every target that a call site lists is a callable or a lambda of the
/// program.
pub proof fn targets_are_callables(program: ProgramView)
    requires
        program_ok(program),
        program.definitions.dom().finite(),
    ensures
        program_analysis(program) matches Some(found) ==> sites_within(
            found.call_sites,
            callable_ids(program.names),
        ),
{
    let all = callable_ids(program.names);
    let rounds = rounds_for(ascending::<String>(program.definitions.dom()).len());
    let start = AnalysisView { summary: first_summary(program), call_sites: Seq::empty() };
    assert(analysis_within(start, all));
    lemma_passes(program, false, start, rounds, all);
    match passes(program, false, start, rounds) {
        Some(inside) => {
            lemma_passes(program, true, inside, rounds, all);
            match passes(program, true, inside, rounds) {
                Some(found) => {
                    lemma_analyzed(program, found.summary, true, all);
                    let sites = doubted(found).call_sites;
                    assert forall|i: int, t: Seq<char>|
                        0 <= i < sites.len() && #[trigger] sites[i].targets.contains(
                            t,
                        ) implies all.contains(t) by {
                        assert(found.call_sites[i].targets.contains(t));
                    }
                },
                None => {},
            }
        },
        None => {},
    }
}

} // verus!
