//! Laws of what collections give back of what was put into them.
use crate::collections::{
    found_value_is_loaded, list_keeps_head_and_tail, pushed_value_is_last, store_is_looked_up,
};
use crate::effects::changed_collection;
use crate::evaluate::{looked_up, method_value, stored, value_of, MAX_VALUE_DEPTH};
use crate::ids::LocalRef;
use crate::lattice::{any_member_covers_each, any_member_of, covers, member_of, Callable};
use crate::methods::method_of;
use crate::scope::{CollectionKind, ScopeView};
use crate::syntax::SyntaxNode;
use crate::words::methods_go_by_name;
use vstd::prelude::*;

verus! {

/// What a method of a collection gives.
pub open spec fn gives(
    scope: ScopeView,
    collection: Callable,
    kind: CollectionKind,
    name: Seq<char>,
    arguments: Seq<SyntaxNode>,
    state: Map<LocalRef, Callable>,
    results: Map<Seq<char>, Callable>,
    levels: nat,
) -> Option<Callable> {
    method_value(
        scope,
        arguments,
        collection,
        method_of(name),
        Some(kind),
        false,
        state,
        results,
        levels,
    )
}

/// What a method of a collection makes of it.
pub open spec fn makes(
    scope: ScopeView,
    collection: Callable,
    kind: CollectionKind,
    name: Seq<char>,
    arguments: Seq<SyntaxNode>,
    state: Map<LocalRef, Callable>,
    results: Map<Seq<char>, Callable>,
) -> Option<Callable> {
    changed_collection(scope, kind, method_of(name), arguments, collection, state, results)
}

/// A value is at least another.
pub open spec fn is_at_least(v: Option<Callable>, w: Callable) -> bool {
    v matches Some(value) && covers(value, w)
}

/// What was set at an index of an array is got back from the index.
pub proof fn arrays_give_back_what_was_set(
    scope: ScopeView,
    array: Callable,
    value: SyntaxNode,
    index: SyntaxNode,
    state: Map<LocalRef, Callable>,
    results: Map<Seq<char>, Callable>,
    levels: nat,
)
    requires
        !array.bottom,
        array.members.dom().finite(),
    ensures
        makes(
            scope,
            array,
            CollectionKind::Array,
            "set"@,
            seq![value, index],
            state,
            results,
        ) matches Some(after) && is_at_least(
            gives(
                scope,
                after,
                CollectionKind::Array,
                "get"@,
                seq![index],
                state,
                results,
                levels,
            ),
            value_of(scope, value, state, results, MAX_VALUE_DEPTH as nat),
        ),
{
    methods_go_by_name("set"@);
    methods_go_by_name("get"@);
    let v = value_of(scope, value, state, results, MAX_VALUE_DEPTH as nat);
    store_is_looked_up(scope, array, index, v, Some(index));
}

/// What was pushed onto an array may be its last element, and may be popped.
pub proof fn arrays_give_back_what_was_pushed(
    scope: ScopeView,
    array: Callable,
    value: SyntaxNode,
    n: usize,
    state: Map<LocalRef, Callable>,
    results: Map<Seq<char>, Callable>,
    levels: nat,
)
    requires
        !array.bottom,
        array.members.dom().finite(),
        array.array_lengths matches Some(lengths) ==> lengths.finite() && lengths.contains(n) && n
            < usize::MAX,
    ensures
        makes(
            scope,
            array,
            CollectionKind::Array,
            "push"@,
            seq![value],
            state,
            results,
        ) matches Some(after) && {
            let v = value_of(scope, value, state, results, MAX_VALUE_DEPTH as nat);
            let none = Seq::<SyntaxNode>::empty();
            let kind = CollectionKind::Array;
            &&& is_at_least(gives(scope, after, kind, "last"@, none, state, results, levels), v)
            &&& is_at_least(gives(scope, after, kind, "pop"@, none, state, results, levels), v)
        },
{
    methods_go_by_name("push"@);
    methods_go_by_name("last"@);
    methods_go_by_name("pop"@);
    let v = value_of(scope, value, state, results, MAX_VALUE_DEPTH as nat);
    pushed_value_is_last(array, v, n);
}

/// What was set under a key of a map is got back under the key: at once, or out of what the
/// lookup found. Setting it gives the map as it is then.
pub proof fn maps_give_back_what_was_set(
    scope: ScopeView,
    map: Callable,
    key: SyntaxNode,
    value: SyntaxNode,
    state: Map<LocalRef, Callable>,
    results: Map<Seq<char>, Callable>,
)
    requires
        !map.bottom,
        map.members.dom().finite(),
    ensures
        makes(
            scope,
            map,
            CollectionKind::Mapping,
            "set"@,
            seq![key, value],
            state,
            results,
        ) matches Some(after) && {
            let levels = MAX_VALUE_DEPTH as nat;
            let v = value_of(scope, value, state, results, levels);
            let kind = CollectionKind::Mapping;
            let none = Seq::<SyntaxNode>::empty();
            let entry = gives(scope, after, kind, "get"@, seq![key], state, results, levels);
            &&& is_at_least(
                gives(scope, after, kind, "mustGet"@, seq![key], state, results, levels),
                v,
            )
            &&& entry matches Some(e) && is_at_least(
                gives(scope, e, kind, "loadValue"@, none, state, results, levels),
                v,
            )
            &&& gives(scope, map, kind, "set"@, seq![key, value], state, results, levels) == Some(
                after,
            )
        },
{
    methods_go_by_name("set"@);
    methods_go_by_name("get"@);
    methods_go_by_name("mustGet"@);
    methods_go_by_name("loadValue"@);
    let levels = MAX_VALUE_DEPTH as nat;
    let v = value_of(scope, value, state, results, levels);
    let after = stored(scope, map, key, v);
    store_is_looked_up(scope, map, key, v, Some(key));
    found_value_is_loaded(
        scope,
        Seq::empty(),
        looked_up(scope, after, Some(key)),
        Some(CollectionKind::Mapping),
        false,
        state,
        results,
        levels,
    );
}

/// What a search in a map finds may be each of its values.
pub proof fn searches_find_every_value(
    scope: ScopeView,
    map: Callable,
    name: Seq<char>,
    arguments: Seq<SyntaxNode>,
    key: Seq<char>,
    state: Map<LocalRef, Callable>,
    results: Map<Seq<char>, Callable>,
    levels: nat,
)
    requires
        map.members.dom().finite(),
        map.members.contains_key(key),
        name == "findFirst"@ || name == "findLast"@ || name == "findKeyGreater"@ || name
            == "findKeyGreaterOrEqual"@ || name == "findKeyLess"@ || name == "findKeyLessOrEqual"@
            || name == "iterateNext"@ || name == "iteratePrev"@,
    ensures
        gives(
            scope,
            map,
            CollectionKind::Mapping,
            name,
            arguments,
            state,
            results,
            levels,
        ) matches Some(e) && is_at_least(
            gives(
                scope,
                e,
                CollectionKind::Mapping,
                "loadValue"@,
                Seq::empty(),
                state,
                results,
                levels,
            ),
            member_of(map, key),
        ),
{
    methods_go_by_name(name);
    methods_go_by_name("loadValue"@);
    any_member_covers_each(map, key);
    found_value_is_loaded(
        scope,
        Seq::empty(),
        any_member_of(map),
        Some(CollectionKind::Mapping),
        false,
        state,
        results,
        levels,
    );
}

/// A list gives back the head that was prepended, and the list behind it.
pub proof fn lists_give_back_what_was_prepended(
    scope: ScopeView,
    list: Callable,
    head: SyntaxNode,
    state: Map<LocalRef, Callable>,
    results: Map<Seq<char>, Callable>,
    levels: nat,
)
    ensures
        makes(
            scope,
            list,
            CollectionKind::List,
            "prependHead"@,
            seq![head],
            state,
            results,
        ) matches Some(after) && {
            let v = value_of(scope, head, state, results, MAX_VALUE_DEPTH as nat);
            let kind = CollectionKind::List;
            let none = Seq::<SyntaxNode>::empty();
            &&& gives(scope, after, kind, "getHead"@, none, state, results, levels) == Some(v)
            &&& gives(scope, after, kind, "popHead"@, none, state, results, levels) == Some(v)
            &&& gives(scope, after, kind, "getTail"@, none, state, results, levels) == Some(list)
            &&& makes(scope, after, kind, "popHead"@, none, state, results) == Some(list)
        },
{
    methods_go_by_name("prependHead"@);
    methods_go_by_name("getHead"@);
    methods_go_by_name("getTail"@);
    methods_go_by_name("popHead"@);
    let v = value_of(scope, head, state, results, MAX_VALUE_DEPTH as nat);
    list_keeps_head_and_tail(scope, Seq::empty(), v, list, false, state, results, levels);
}

} // verus!
