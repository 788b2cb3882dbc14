//! Laws of what expressions may be called as.
use crate::callable::join_optional;
use crate::collections::literal_keeps_positions;
use crate::evaluate::{
    call_result, fields_from, part_value, results_from, returned, shaped, value_of,
};
use crate::ids::{LocalRef, Resolved};
use crate::lattice::{
    covers, covers_is_reflexive, covers_is_transitive, join, join_covers_both, join_is_least,
    member_of, unknown, Callable,
};
use crate::scope::{callable_at, direct_target, place, CollectionKind, ScopeView};
use crate::syntax::{kinds_go_by_text, lemma_part, named, part, text_of, SyntaxNode};
use crate::tables::{ascending, lemma_ascending};
use crate::text::decimal;
use vstd::prelude::*;

verus! {

/// The name at a node stands for a function, a method or a get-method with an id.
pub open spec fn names_callable(scope: ScopeView, node: SyntaxNode, id: Seq<char>) -> bool {
    let key = place(scope.file, node);
    &&& scope.names.resolved.contains_key(key)
    &&& scope.names.resolved[key] matches Resolved::Global(symbol)
        && scope.names.callables.contains(symbol) && scope.names.symbol_ids.contains_key(symbol)
        && scope.names.symbol_ids[symbol] == id
}

/// The expression that a node only wraps: in brackets, as not null, in a cast or with type
/// arguments.
pub open spec fn wrapped(node: SyntaxNode) -> Option<SyntaxNode> {
    if node.kind@ == "parenthesized_expression"@ || node.kind@ == "not_null_operator"@ {
        part(node, "inner"@)
    } else if node.kind@ == "cast_as_operator"@ || node.kind@ == "generic_instantiation"@ {
        part(node, "expr"@)
    } else {
        None
    }
}

/// A wrapper is the expression that it wraps: it names the same callable, and has the same value
/// one level deeper.
pub proof fn wrappers_change_nothing(
    scope: ScopeView,
    node: SyntaxNode,
    inner: SyntaxNode,
    state: Map<LocalRef, Callable>,
    results: Map<Seq<char>, Callable>,
    levels: nat,
)
    requires
        wrapped(node) == Some(inner),
        levels > 0,
    ensures
        direct_target(scope, node) == direct_target(scope, inner),
        value_of(scope, node, state, results, levels + 1) == value_of(
            scope,
            inner,
            state,
            results,
            levels,
        ),
{
    kinds_go_by_text(node.kind@);
    assert(part_value(scope, wrapped(node), state, results, levels) == value_of(
        scope,
        inner,
        state,
        results,
        levels,
    ));
}

/// A name of a callable has that callable as its only target, and so has the name of a method
/// behind a dot.
pub proof fn names_have_their_callable(
    scope: ScopeView,
    node: SyntaxNode,
    id: Seq<char>,
    state: Map<LocalRef, Callable>,
    results: Map<Seq<char>, Callable>,
    levels: nat,
)
    requires
        levels > 0,
        node.kind@ == "identifier"@ && names_callable(scope, node, id) || (node.kind@
            == "dot_access"@ && (part(node, "field"@) matches Some(field) && names_callable(
            scope,
            field,
            id,
        ))),
    ensures
        direct_target(scope, node) == Some(id),
        value_of(scope, node, state, results, levels).targets == set![id],
        value_of(scope, node, state, results, levels).complete,
        !value_of(scope, node, state, results, levels).bottom,
{
    kinds_go_by_text(node.kind@);
    let v = value_of(scope, node, state, results, levels);
    assert(v.targets =~= set![id]);
}

/// Where a name stands for nothing that can be called it has no direct target.
pub proof fn direct_targets_are_named(scope: ScopeView, node: SyntaxNode, id: Seq<char>)
    requires
        direct_target(scope, node) == Some(id),
    ensures
        exists|name: SyntaxNode| #[trigger] names_callable(scope, name, id),
    decreases node,
{
    kinds_go_by_text(node.kind@);
    lemma_part(node, "expr"@);
    lemma_part(node, "inner"@);
    if node.kind@ == "identifier"@ {
        assert(names_callable(scope, node, id));
    } else if node.kind@ == "dot_access"@ {
        let field = part(node, "field"@)->Some_0;
        assert(names_callable(scope, field, id));
    } else {
        direct_targets_are_named(scope, wrapped(node)->Some_0, id);
    }
}

/// A name of a local has the value of the local.
pub proof fn locals_have_their_value(
    scope: ScopeView,
    node: SyntaxNode,
    local: LocalRef,
    state: Map<LocalRef, Callable>,
    results: Map<Seq<char>, Callable>,
    levels: nat,
)
    requires
        levels > 0,
        node.kind@ == "identifier"@,
        scope.names.resolved.contains_key(place(scope.file, node)),
        scope.names.resolved[place(scope.file, node)] == Resolved::Local(local),
    ensures
        state.contains_key(local) ==> value_of(scope, node, state, results, levels)
            == state[local],
        !state.contains_key(local) ==> value_of(scope, node, state, results, levels)
            == unknown(),
        direct_target(scope, node) is None,
{
    kinds_go_by_text(node.kind@);
}

/// A lambda has itself as its only target.
pub proof fn lambdas_are_their_target(
    scope: ScopeView,
    node: SyntaxNode,
    state: Map<LocalRef, Callable>,
    results: Map<Seq<char>, Callable>,
    levels: nat,
)
    requires
        levels > 0,
        node.kind@ == "lambda_expression"@,
        scope.names.lambda_ids.contains_key(place(scope.file, node)),
    ensures
        value_of(scope, node, state, results, levels).targets == set![
            scope.names.lambda_ids[place(scope.file, node)],
        ],
        value_of(scope, node, state, results, levels).complete,
        !value_of(scope, node, state, results, levels).bottom,
{
    kinds_go_by_text(node.kind@);
    let v = value_of(scope, node, state, results, levels);
    assert(v.targets =~= set![scope.names.lambda_ids[place(scope.file, node)]]);
}

/// A choice may be each of its branches, and nothing that neither of them may be.
pub proof fn choices_may_be_both(
    scope: ScopeView,
    node: SyntaxNode,
    one: SyntaxNode,
    other: SyntaxNode,
    state: Map<LocalRef, Callable>,
    results: Map<Seq<char>, Callable>,
    levels: nat,
    least: Callable,
)
    requires
        node.kind@ == "ternary_operator"@,
        part(node, "consequence"@) == Some(one),
        part(node, "alternative"@) == Some(other),
    ensures
        covers(
            value_of(scope, node, state, results, levels + 1),
            value_of(scope, one, state, results, levels),
        ),
        covers(
            value_of(scope, node, state, results, levels + 1),
            value_of(scope, other, state, results, levels),
        ),
        covers(least, value_of(scope, one, state, results, levels)) && covers(
            least,
            value_of(scope, other, state, results, levels),
        ) ==> covers(least, value_of(scope, node, state, results, levels + 1)),
{
    kinds_go_by_text(node.kind@);
    let a = value_of(scope, one, state, results, levels);
    let b = value_of(scope, other, state, results, levels);
    assert(part_value(scope, Some(one), state, results, levels) == a);
    assert(part_value(scope, Some(other), state, results, levels) == b);
    join_covers_both(a, b);
    if covers(least, a) && covers(least, b) {
        join_is_least(least, a, b);
    }
}

/// A literal that is no container can not be called.
pub proof fn plain_literals_have_no_target(
    scope: ScopeView,
    node: SyntaxNode,
    state: Map<LocalRef, Callable>,
    results: Map<Seq<char>, Callable>,
    levels: nat,
)
    requires
        levels > 0,
        node.kind@ == "number_literal"@ || node.kind@ == "string_literal"@ || node.kind@
            == "boolean_literal"@ || node.kind@ == "null_literal"@,
    ensures
        value_of(scope, node, state, results, levels).targets == Set::<Seq<char>>::empty(),
        value_of(scope, node, state, results, levels).complete,
        !value_of(scope, node, state, results, levels).bottom,
{
    kinds_go_by_text(node.kind@);
}

/// What stands behind a dot is the member of that name, where the value lists it.
pub proof fn members_are_read(
    scope: ScopeView,
    node: SyntaxNode,
    object: SyntaxNode,
    field: SyntaxNode,
    name: Seq<char>,
    state: Map<LocalRef, Callable>,
    results: Map<Seq<char>, Callable>,
    levels: nat,
)
    requires
        node.kind@ == "dot_access"@,
        part(node, "obj"@) == Some(object),
        part(node, "field"@) == Some(field),
        direct_target(scope, field) is None,
        !(exists|id: Seq<char>| names_callable(scope, field, id)),
        text_of(scope.source, field) == Some(name),
    ensures
        ({
            let whole = value_of(scope, object, state, results, levels);
            let v = value_of(scope, node, state, results, levels + 1);
            &&& whole.bottom ==> v.bottom
            &&& !whole.bottom && whole.members.contains_key(name) ==> covers(
                v,
                whole.members[name],
            )
            &&& !whole.bottom && whole.members.contains_key(name) && !whole.members.contains_key(
                "\0dynamic"@,
            ) ==> v == whole.members[name]
            &&& !whole.bottom && !whole.members.contains_key(name)
                && !whole.members.contains_key("\0dynamic"@) ==> v.targets == Set::<
                Seq<char>,
            >::empty() && v.complete == whole.members_complete
        }),
{
    kinds_go_by_text(node.kind@);
    let whole = value_of(scope, object, state, results, levels);
    match callable_at(scope, field) {
        Some(id) => {
            assert(names_callable(scope, field, id));
        },
        None => {},
    }
    if whole.members.contains_key(name) {
        covers_is_reflexive(whole.members[name]);
        if whole.members.contains_key("\0dynamic"@) {
            join_covers_both(whole.members[name], whole.members["\0dynamic"@]);
        }
    }
}

/// The elements of a tensor and of a tuple are its members by position; those of an array are
/// its entries.
pub proof fn containers_hold_their_elements(
    scope: ScopeView,
    node: SyntaxNode,
    state: Map<LocalRef, Callable>,
    results: Map<Seq<char>, Callable>,
    levels: nat,
    i: int,
)
    requires
        node.kind@ == "tensor_expression"@ || node.kind@ == "typed_tuple"@,
        0 <= i < named(node).len(),
    ensures
        ({
            let array = node.kind@ == "typed_tuple"@
                && scope.names.collection_kinds.contains_key(place(scope.file, node))
                && scope.names.collection_kinds[place(scope.file, node)] == CollectionKind::Array;
            let key = if array {
                "int:"@ + decimal(i as nat)
            } else {
                decimal(i as nat)
            };
            member_of(value_of(scope, node, state, results, levels + 1), key) == value_of(
                scope,
                named(node)[i],
                state,
                results,
                levels,
            )
        }),
{
    kinds_go_by_text(node.kind@);
    let array = node.kind@ == "typed_tuple"@ && scope.names.collection_kinds.contains_key(
        place(scope.file, node),
    ) && scope.names.collection_kinds[place(scope.file, node)] == CollectionKind::Array;
    let lengths = if array {
        Some(Set::empty().insert(named(node).len() as usize))
    } else {
        None
    };
    literal_keeps_positions(scope, named(node), array, lengths, state, results, levels, i);
}

/// An object has under the name of a field what the last field of that name is given.
proof fn lemma_fields(
    scope: ScopeView,
    fields: Seq<SyntaxNode>,
    i: int,
    acc: Callable,
    state: Map<LocalRef, Callable>,
    results: Map<Seq<char>, Callable>,
    levels: nat,
    at: int,
    key: Seq<char>,
)
    requires
        0 <= i,
        at < i ==> acc.members.contains_key(key) && acc.members[key] == part_value(
            scope,
            part(fields[at], "value"@),
            state,
            results,
            levels,
        ),
        0 <= at < fields.len(),
        part(fields[at], "name"@) matches Some(name) && text_of(scope.source, name) == Some(key),
        forall|k: int|
            at < k < fields.len() ==> (part(#[trigger] fields[k], "name"@) matches Some(name)
                ==> text_of(scope.source, name) is Some && text_of(scope.source, name) != Some(key)),
    ensures
        fields_from(scope, fields, i, acc, state, results, levels).members.contains_key(key),
        fields_from(scope, fields, i, acc, state, results, levels).members[key] == part_value(
            scope,
            part(fields[at], "value"@),
            state,
            results,
            levels,
        ),
    decreases fields.len() - i,
{
    if i < fields.len() {
        let next = match part(fields[i], "name"@) {
            Some(name) => Callable {
                members: acc.members.insert(
                    match text_of(scope.source, name) {
                        Some(text) => text,
                        None => Seq::empty(),
                    },
                    part_value(scope, part(fields[i], "value"@), state, results, levels),
                ),
                ..acc
            },
            None => acc,
        };
        lemma_fields(scope, fields, i + 1, next, state, results, levels, at, key);
    }
}

/// A field of an object is a member of its value.
pub proof fn objects_hold_their_fields(
    scope: ScopeView,
    node: SyntaxNode,
    list: SyntaxNode,
    at: int,
    name: SyntaxNode,
    value: SyntaxNode,
    key: Seq<char>,
    state: Map<LocalRef, Callable>,
    results: Map<Seq<char>, Callable>,
    levels: nat,
)
    requires
        node.kind@ == "object_literal"@,
        part(node, "arguments"@) == Some(list),
        0 <= at < named(list).len(),
        part(named(list)[at], "name"@) == Some(name),
        part(named(list)[at], "value"@) == Some(value),
        text_of(scope.source, name) == Some(key),
        forall|k: int|
            at < k < named(list).len() ==> (part(#[trigger] named(list)[k], "name"@) matches Some(
                other,
            ) ==> text_of(scope.source, other) is Some && text_of(scope.source, other) != Some(
                key,
            )),
    ensures
        value_of(scope, node, state, results, levels + 1).members.contains_key(key),
        value_of(scope, node, state, results, levels + 1).members[key] == value_of(
            scope,
            value,
            state,
            results,
            levels,
        ),
{
    kinds_go_by_text(node.kind@);
    lemma_fields(scope, named(list), 0, shaped(), state, results, levels, at, key);
}

proof fn lemma_results(
    results: Map<Seq<char>, Callable>,
    targets: Seq<Seq<char>>,
    i: int,
    acc: Option<Callable>,
)
    requires
        0 <= i,
    ensures
        acc matches Some(v) ==> (results_from(results, targets, i, acc) matches Some(all)
            && covers(all, v)),
        forall|k: int|
            i <= k < targets.len() ==> (results_from(results, targets, i, acc) matches Some(all)
                && covers(all, returned(results, #[trigger] targets[k]))),
    decreases targets.len() - i,
{
    if acc is Some {
        covers_is_reflexive(acc->Some_0);
    }
    if i < targets.len() {
        let own = returned(results, targets[i]);
        let next = join_optional(acc, own);
        covers_is_reflexive(own);
        if acc is Some {
            join_covers_both(acc->Some_0, own);
        }
        lemma_results(results, targets, i + 1, Some(next));
        let all = results_from(results, targets, i, acc)->Some_0;
        covers_is_transitive(all, next, own);
        if acc is Some {
            covers_is_transitive(all, next, acc->Some_0);
        }
    }
}

/// A call of a value whose results nest no deeper than is followed may give what each of its
/// targets gives.
pub proof fn calls_give_what_targets_give(
    called: Callable,
    results: Map<Seq<char>, Callable>,
    levels: nat,
    target: Seq<char>,
)
    requires
        !called.bottom,
        called.targets.finite(),
        called.targets.contains(target),
        results.contains_key(target),
    ensures
        results[target].targets.subset_of(call_result(called, results, levels).targets)
            || results[target].bottom,
        call_result(called, results, levels).complete ==> results[target].complete
            || results[target].bottom,
{
    let targets = ascending::<String>(called.targets);
    lemma_ascending::<String>(called.targets);
    assert(targets.to_set().contains(target));
    let k = choose|k: int| 0 <= k < targets.len() && targets[k] == target;
    lemma_results(results, targets, 0, None);
    let all = results_from(results, targets, 0, None)->Some_0;
    assert(covers(all, returned(results, targets[k])));
    if !called.complete {
        join_covers_both(all, unknown());
        covers_is_transitive(join(all, unknown()), all, results[target]);
    }
}

} // verus!
