//! What the operations on collections keep of the values that are put into them.
use crate::constants::key_of_value;
use crate::effects::changed_collection;
use crate::evaluate::{
    call_result, cell_of, elements_from, ends_from, found, last_of, looked_up, method_value,
    results_from, shaped, stored, value_of, MAX_VALUE_DEPTH,
};
use crate::facts::Evaluated;
use crate::ids::LocalRef;
use crate::lattice::{
    any_member_covers_each, any_member_of, covers, covers_is_reflexive, covers_is_transitive,
    covers_leaf, dynamic_member, dynamic_write_is_seen, int_key, is_end, join, join_covers_both,
    limited, listed, longer, map_value_member, member_of, not_reached, push_is_seen, unknown,
    with_ends, with_member, with_pushed, Callable, MAX_TRACKED_ARRAY_LENGTHS,
};
use crate::methods::{key_of, Method};
use crate::scope::{CollectionKind, ScopeView};
use crate::syntax::{kind_of, IntLiteral, SyntaxNode};
use crate::tables::{ascending, lemma_ascending};
use crate::text::{decimal, decimals_differ, lemma_decimal_ends};
use vstd::prelude::*;

verus! {

/// A value that was stored is looked up again: under its key, and under every key when one of
/// the two is not known.
pub proof fn store_is_looked_up(
    scope: ScopeView,
    collection: Callable,
    key: SyntaxNode,
    value: Callable,
    other: Option<SyntaxNode>,
)
    requires
        !collection.bottom,
        collection.members.dom().finite(),
    ensures
        covers(looked_up(scope, stored(scope, collection, key, value), Some(key)), value),
        key_of(scope, key) is None || (other matches Some(node) ==> key_of(scope, node) is None)
            ==> covers(looked_up(scope, stored(scope, collection, key, value), other), value),
{
    let after = stored(scope, collection, key, value);
    match key_of(scope, key) {
        Some(name) => {
            covers_is_reflexive(value);
            assert(listed(after, name) == value);
            if after.members.contains_key(dynamic_member()) {
                join_covers_both(value, after.members[dynamic_member()]);
            }
            any_member_covers_each(after, name);
            covers_is_transitive(any_member_of(after), member_of(after, name), value);
        },
        None => {
            dynamic_write_is_seen(collection, value, dynamic_member());
            any_member_covers_each(after, dynamic_member());
            covers_is_transitive(any_member_of(after), member_of(after, dynamic_member()), value);
            match other {
                Some(node) => match key_of(scope, node) {
                    Some(name) => dynamic_write_is_seen(collection, value, name),
                    None => {},
                },
                None => {},
            }
        },
    }
}

/// A value that was stored under a number literal is looked up again under every literal of the
/// same number, however the two are spelled, and under a constant that evaluates to the number.
/// Of a literal beyond 64 bits the number is not known: it finds, and is found by, every other.
pub proof fn numbers_are_looked_up_by_value(
    scope: ScopeView,
    collection: Callable,
    key: SyntaxNode,
    value: Callable,
    other: SyntaxNode,
)
    requires
        !collection.bottom,
        collection.members.dom().finite(),
        kind_of(key.kind@) is Number,
        ({
            ||| key.literal is Wide
            ||| kind_of(other.kind@) is Number && other.literal is Wide
            ||| kind_of(other.kind@) is Number && other.literal == key.literal
            ||| key.literal matches IntLiteral::Small(n) && exists|text: String|
                text@ == decimal(n as nat) && key_of(scope, other) == #[trigger] key_of_value(
                    Evaluated::Int(text),
                )
        }),
    ensures
        covers(looked_up(scope, stored(scope, collection, key, value), Some(other)), value),
{
    store_is_looked_up(scope, collection, key, value, Some(key));
    store_is_looked_up(scope, collection, key, value, Some(other));
    if key_of(scope, key) is Some && key_of(scope, other) is Some {
        assert(key_of(scope, key) == key_of(scope, other));
    }
}

/// Storing under one known key leaves what is looked up under another.
pub proof fn other_keys_stay(
    scope: ScopeView,
    collection: Callable,
    key: SyntaxNode,
    value: Callable,
    other: SyntaxNode,
)
    requires
        key_of(scope, key) matches Some(name) && key_of(scope, other) matches Some(kept) && name
            != kept && name != dynamic_member(),
    ensures
        looked_up(scope, stored(scope, collection, key, value), Some(other)) == looked_up(
            scope,
            collection,
            Some(other),
        ),
{
}

/// After a deletion under a known key the collection lists nothing there, and the other keys
/// stay what they were.
pub proof fn deleted_key_is_gone(
    scope: ScopeView,
    method: Method,
    arguments: Seq<SyntaxNode>,
    collection: Callable,
    state: Map<LocalRef, Callable>,
    results: Map<Seq<char>, Callable>,
    other: Seq<char>,
)
    requires
        method is Delete || method is DeleteAndGet,
        arguments.len() > 0,
        key_of(scope, arguments[0]) is Some,
    ensures
        changed_collection(
            scope,
            CollectionKind::Mapping,
            method,
            arguments,
            collection,
            state,
            results,
        ) matches Some(after) && !after.members.contains_key(
            key_of(scope, arguments[0])->Some_0,
        ) && (other != key_of(scope, arguments[0])->Some_0 ==> listed(after, other) == listed(
            collection,
            other,
        )),
{
}

/// A store that may not happen keeps both: what is looked up under its key covers the new value
/// and what was looked up before.
pub proof fn optional_store_keeps_both(
    scope: ScopeView,
    method: Method,
    arguments: Seq<SyntaxNode>,
    collection: Callable,
    state: Map<LocalRef, Callable>,
    results: Map<Seq<char>, Callable>,
)
    requires
        method is StoreIf || method is StoreIfAndGet,
        arguments.len() > 1,
        key_of(scope, arguments[0]) is Some,
        !collection.bottom,
    ensures
        changed_collection(
            scope,
            CollectionKind::Mapping,
            method,
            arguments,
            collection,
            state,
            results,
        ) matches Some(after) && {
            let name = key_of(scope, arguments[0])->Some_0;
            &&& covers(
                member_of(after, name),
                value_of(scope, arguments[1], state, results, MAX_VALUE_DEPTH as nat),
            )
            &&& collection.members.contains_key(name) || !collection.members_complete ==> covers(
                listed(after, name),
                listed(collection, name),
            )
        },
{
    let name = key_of(scope, arguments[0])->Some_0;
    let value = value_of(scope, arguments[1], state, results, MAX_VALUE_DEPTH as nat);
    let after = changed_collection(
        scope,
        CollectionKind::Mapping,
        method,
        arguments,
        collection,
        state,
        results,
    )->Some_0;
    let held = after.members[name];
    covers_is_reflexive(value);
    if collection.members.contains_key(name) {
        join_covers_both(collection.members[name], value);
        assert(held == join(collection.members[name], value));
    } else if collection.members_complete {
        assert(held == value);
    } else {
        join_covers_both(unknown(), value);
        assert(held == join(unknown(), value));
    }
    assert(listed(after, name) == held);
    if after.members.contains_key(dynamic_member()) {
        join_covers_both(held, after.members[dynamic_member()]);
        covers_is_transitive(member_of(after, name), held, value);
    }
}

/// What a map lookup found is what is loaded from it.
pub proof fn found_value_is_loaded(
    scope: ScopeView,
    arguments: Seq<SyntaxNode>,
    value: Callable,
    kind: Option<CollectionKind>,
    library: bool,
    state: Map<LocalRef, Callable>,
    results: Map<Seq<char>, Callable>,
    levels: nat,
)
    ensures
        method_value(
            scope,
            arguments,
            found(value),
            Method::LoadValue,
            kind,
            library,
            state,
            results,
            levels,
        ) == Some(value),
{
    reveal_strlit("\0dynamic");
    reveal_strlit("\0map-value");
    assert(dynamic_member()[1] != map_value_member()[1]);
}

/// A list gives back its head and its tail.
pub proof fn list_keeps_head_and_tail(
    scope: ScopeView,
    arguments: Seq<SyntaxNode>,
    head: Callable,
    tail: Callable,
    library: bool,
    state: Map<LocalRef, Callable>,
    results: Map<Seq<char>, Callable>,
    levels: nat,
)
    ensures
        method_value(
            scope,
            arguments,
            cell_of(head, tail),
            Method::GetHead,
            Some(CollectionKind::List),
            library,
            state,
            results,
            levels,
        ) == Some(head),
        method_value(
            scope,
            arguments,
            cell_of(head, tail),
            Method::GetTail,
            Some(CollectionKind::List),
            library,
            state,
            results,
            levels,
        ) == Some(tail),
        changed_collection(
            scope,
            CollectionKind::List,
            Method::PopHead,
            arguments,
            cell_of(head, tail),
            state,
            results,
        ) == Some(tail),
{
    reveal_strlit("\0dynamic");
    reveal_strlit("0");
    reveal_strlit("1");
    assert(dynamic_member().len() == 8);
    assert("0"@[0] != "1"@[0]);
}

/// A map that becomes a dictionary keeps its shape.
pub proof fn dictionary_keeps_shape(
    scope: ScopeView,
    arguments: Seq<SyntaxNode>,
    collection: Callable,
    state: Map<LocalRef, Callable>,
    results: Map<Seq<char>, Callable>,
    levels: nat,
)
    ensures
        method_value(
            scope,
            arguments,
            collection,
            Method::ToDictionary,
            Some(CollectionKind::Mapping),
            true,
            state,
            results,
            levels,
        ) == Some(collection),
{
}

proof fn lemma_limited_covers(v: Callable, remaining: nat)
    requires
        covers_leaf(v, false),
    ensures
        covers_leaf(limited(v, remaining), false),
    decreases remaining,
{
    let x = limited(v, remaining);
    if remaining > 0 {
        assert forall|k: Seq<char>| x.members.contains_key(k) implies covers_leaf(
            #[trigger] x.members[k],
            false,
        ) by {
            lemma_limited_covers(v.members[k], (remaining - 1) as nat);
        }
    }
}

/// What a call gives of which a callee is not known may be anything, at every depth, besides
/// what the known callees give.
pub proof fn unknown_callee_gives_anything(
    called: Callable,
    results: Map<Seq<char>, Callable>,
    levels: nat,
)
    requires
        !called.bottom,
        !called.complete,
    ensures
        covers(call_result(called, results, levels), unknown()),
{
    let all = match results_from(results, ascending::<String>(called.targets), 0, None) {
        Some(value) => value,
        None => unknown(),
    };
    join_covers_both(all, unknown());
    lemma_limited_covers(join(all, unknown()), levels);
}

/// The key of the element at a position.
pub open spec fn position_key(array: bool, i: nat) -> Seq<char> {
    if array {
        int_key(i)
    } else {
        decimal(i)
    }
}

proof fn lemma_position_key(array: bool, i: nat, j: nat)
    ensures
        position_key(array, i) == position_key(array, j) ==> i == j,
        position_key(array, i) != dynamic_member(),
{
    reveal_strlit("\0dynamic");
    reveal_strlit("int:");
    lemma_decimal_ends(i);
    if position_key(array, i) == position_key(array, j) {
        assert(decimal(i) =~= decimal(j)) by {
            if array {
                assert(int_key(i).skip(4) =~= decimal(i));
                assert(int_key(j).skip(4) =~= decimal(j));
            }
        }
        decimals_differ(i, j);
    }
    assert(position_key(array, i)[0] != dynamic_member()[0]);
}

proof fn lemma_elements(
    scope: ScopeView,
    elements: Seq<SyntaxNode>,
    from: int,
    array: bool,
    acc: Callable,
    state: Map<LocalRef, Callable>,
    results: Map<Seq<char>, Callable>,
    levels: nat,
    i: int,
)
    requires
        0 <= from <= elements.len(),
        0 <= i < elements.len(),
        !acc.bottom,
        !acc.members.contains_key(dynamic_member()),
        i < from ==> acc.members.contains_key(position_key(array, i as nat))
            && acc.members[position_key(array, i as nat)] == value_of(
            scope,
            elements[i],
            state,
            results,
            levels,
        ),
    ensures
        member_of(
            elements_from(scope, elements, from, array, acc, state, results, levels),
            position_key(array, i as nat),
        ) == value_of(scope, elements[i], state, results, levels),
    decreases elements.len() - from,
{
    if from < elements.len() {
        lemma_position_key(array, from as nat, i as nat);
        let next = with_member(
            acc,
            position_key(array, from as nat),
            value_of(scope, elements[from], state, results, levels),
        );
        lemma_elements(scope, elements, from + 1, array, next, state, results, levels, i);
    }
}

/// A tuple or an array literal holds each element at its position.
pub proof fn literal_keeps_positions(
    scope: ScopeView,
    elements: Seq<SyntaxNode>,
    array: bool,
    lengths: Option<Set<usize>>,
    state: Map<LocalRef, Callable>,
    results: Map<Seq<char>, Callable>,
    levels: nat,
    i: int,
)
    requires
        0 <= i < elements.len(),
    ensures
        member_of(
            elements_from(
                scope,
                elements,
                0,
                array,
                (Callable { array_lengths: lengths, ..shaped() }),
                state,
                results,
                levels,
            ),
            position_key(array, i as nat),
        ) == value_of(scope, elements[i], state, results, levels),
{
    lemma_elements(
        scope,
        elements,
        0,
        array,
        Callable { array_lengths: lengths, ..shaped() },
        state,
        results,
        levels,
        i,
    );
}

proof fn lemma_ends_from(v: Callable, lengths: Seq<usize>, i: int, acc: Callable, j: int)
    requires
        0 <= i <= lengths.len(),
    ensures
        covers(ends_from(v, lengths, i, acc), acc),
        i <= j < lengths.len() && lengths[j] > 0 ==> covers(
            ends_from(v, lengths, i, acc),
            member_of(v, int_key((lengths[j] - 1) as nat)),
        ),
    decreases lengths.len() - i,
{
    covers_is_reflexive(acc);
    if i < lengths.len() {
        let next = if lengths[i] > 0 {
            join(acc, member_of(v, int_key((lengths[i] - 1) as nat)))
        } else {
            acc
        };
        lemma_ends_from(v, lengths, i + 1, next, j);
        if lengths[i] > 0 {
            let end = member_of(v, int_key((lengths[i] - 1) as nat));
            join_covers_both(acc, end);
            covers_is_transitive(ends_from(v, lengths, i, acc), next, acc);
            covers_is_transitive(ends_from(v, lengths, i, acc), next, end);
        }
    }
}

/// A value that was pushed may be the last element.
pub proof fn pushed_value_is_last(v: Callable, written: Callable, n: usize)
    requires
        !v.bottom,
        v.members.dom().finite(),
        v.array_lengths matches Some(lengths) ==> lengths.finite() && lengths.contains(n) && n
            < usize::MAX,
    ensures
        covers(last_of(with_pushed(v, written)), written),
{
    let x = with_pushed(v, written);
    match v.array_lengths {
        None => {
            dynamic_write_is_seen(v, written, dynamic_member());
            any_member_covers_each(x, dynamic_member());
            covers_is_transitive(any_member_of(x), member_of(x, dynamic_member()), written);
        },
        Some(lengths) => {
            let next = lengths.map(|n: usize| longer(n));
            push_is_seen(v, written, n);
            let end = member_of(x, int_key(n as nat));
            if next.len() > MAX_TRACKED_ARRAY_LENGTHS {
                lemma_pushed_finite(v, lengths, written);
                any_member_covers_each(x, int_key(n as nat));
                covers_is_transitive(any_member_of(x), end, written);
            } else {
                assert(next.contains(longer(n)));
                lengths.lemma_map_finite(|n: usize| longer(n));
                lemma_ascending::<usize>(next);
                let order = ascending::<usize>(next);
                assert(order.to_set().contains(longer(n)));
                let j = choose|j: int| 0 <= j < order.len() && order[j] == longer(n);
                lemma_ends_from(x, order, 0, not_reached(), j);
                covers_is_transitive(last_of(x), end, written);
            }
        },
    }
}

proof fn lemma_pushed_finite(v: Callable, lengths: Set<usize>, written: Callable)
    requires
        v.members.dom().finite(),
        v.array_lengths == Some(lengths),
        lengths.finite(),
    ensures
        with_pushed(v, written).members.dom().finite(),
{
    broadcast use vstd::set_lib::lemma_set_union_finite_iff;

    let filled = with_ends(v, lengths, written);
    let ends = lengths.map(|n: usize| int_key(n as nat));
    lengths.lemma_map_finite(|n: usize| int_key(n as nat));
    assert(filled.members.dom() =~= v.members.dom().union(ends)) by {
        assert forall|k: Seq<char>| ends.contains(k) <==> is_end(lengths, k) by {
            if is_end(lengths, k) {
                let n = choose|n: usize| lengths.contains(n) && #[trigger] int_key(n as nat) == k;
                assert(ends.contains(int_key(n as nat)));
            }
        }
    }
    let x = with_pushed(v, written);
    assert(x.members.dom() =~= filled.members.dom() || x.members.dom()
        =~= filled.members.dom().insert(dynamic_member()));
}

} // verus!
