//! What an expression may be called as.
use crate::callable::{
    int_text, join_optional, merge_optional_callable_value, merged_callable_value, CallableValue,
    MAP_VALUE_MEMBER,
};
use crate::ids::{LocalRef, Resolved};
use crate::lattice::{
    any_member_of, covers, covers_is_reflexive, covers_is_transitive, dynamic_write_is_seen,
    int_key, join, join_covers_both, limited, map_value_member, member_of, not_reached, only, plain,
    unknown, with_dynamic, with_member, Callable,
};
use crate::methods::{
    arguments_of, callee_of, classify_maker, classify_method, key_of, maker_of, method_field_of,
    method_of, pointees, receiver_of, Maker, Method,
};
use crate::scope::{
    collection_at, direct_target, is_library_name, place, resolved_at, text_under, CollectionKind,
    Scope, ScopeView,
};
use crate::syntax::{kind_of, named, part, text_of, NodeKind, SyntaxNode};
use crate::tables::{ascending, lemma_ascending, KeySet, Table};
use crate::text::{decimal, decimal_text, opt_view};
use vstd::prelude::*;
use vstd::string::*;

verus! {

broadcast use crate::text::group_views;

/// How many expressions deep a value is followed.
pub const MAX_VALUE_DEPTH: usize = 12;

/// The values of locals.
pub type State = Table<LocalRef, CallableValue>;

/// The values that callables return.
pub type Returns = Table<String, CallableValue>;

/// The value of a local; nothing is known of one that is not listed.
pub open spec fn held(state: Map<LocalRef, Callable>, local: LocalRef) -> Callable {
    if state.contains_key(local) {
        state[local]
    } else {
        unknown()
    }
}

/// What a callable gives; nothing is known of one that is not listed.
pub open spec fn returned(results: Map<Seq<char>, Callable>, target: Seq<char>) -> Callable {
    if results.contains_key(target) {
        results[target]
    } else {
        unknown()
    }
}

/// A value that is not callable, and of which every member is listed.
pub open spec fn shaped() -> Callable {
    Callable { members_complete: true, ..plain() }
}

/// The result of a map lookup.
pub open spec fn found(value: Callable) -> Callable {
    with_member(shaped(), map_value_member(), value)
}

/// A pair of a head and a tail.
pub open spec fn cell_of(head: Callable, tail: Callable) -> Callable {
    with_member(with_member(shaped(), "0"@, head), "1"@, tail)
}

/// Any of the values that stand in a value and in its members, at any depth.
pub open spec fn slots_of(v: Callable) -> Callable
    decreases v, ascending::<String>(v.members.dom()).len() + 1,
{
    if v.bottom || v.members == Map::<Seq<char>, Callable>::empty() {
        v
    } else {
        slots_from(
            v,
            0,
            if v.members_complete {
                not_reached()
            } else {
                unknown()
            },
        )
    }
}

pub open spec fn slots_from(v: Callable, i: int, acc: Callable) -> Callable
    decreases v, ascending::<String>(v.members.dom()).len() - i,
{
    let keys = ascending::<String>(v.members.dom());
    if 0 <= i < keys.len() && v.members.contains_key(keys[i]) {
        slots_from(v, i + 1, join(acc, slots_of(v.members[keys[i]])))
    } else {
        acc
    }
}

/// A value packed without the names of its members: each member may be any of its slots.
pub open spec fn packed(v: Callable) -> Callable {
    with_dynamic(shaped(), slots_of(v))
}

/// Every slot of a value is known, and none is left out.
pub open spec fn is_known(v: Callable) -> bool
    decreases v,
{
    v.bottom || (if v.members == Map::<Seq<char>, Callable>::empty() {
        v.complete
    } else {
        v.members_complete && forall|k: Seq<char>|
            v.members.contains_key(k) ==> is_known(#[trigger] v.members[k])
    })
}

proof fn lemma_slots_of(v: Callable)
    requires
        is_known(v),
    ensures
        slots_of(v).complete || slots_of(v).bottom,
    decreases v, ascending::<String>(v.members.dom()).len() + 1,
{
    if v.bottom || v.members == Map::<Seq<char>, Callable>::empty() {
    } else {
        lemma_known_slots_from(v, 0, not_reached());
    }
}

proof fn lemma_known_slots_from(v: Callable, i: int, acc: Callable)
    requires
        forall|k: Seq<char>| v.members.contains_key(k) ==> is_known(#[trigger] v.members[k]),
        acc.complete || acc.bottom,
    ensures
        slots_from(v, i, acc).complete || slots_from(v, i, acc).bottom,
    decreases v, ascending::<String>(v.members.dom()).len() - i,
{
    let keys = ascending::<String>(v.members.dom());
    if 0 <= i < keys.len() && v.members.contains_key(keys[i]) {
        assert(is_known(v.members[keys[i]]));
        lemma_slots_of(v.members[keys[i]]);
        lemma_known_slots_from(v, i + 1, join(acc, slots_of(v.members[keys[i]])));
    }
}

proof fn lemma_slots_from(v: Callable, i: int, acc: Callable)
    requires
        0 <= i,
        v.members.dom().finite(),
    ensures
        covers(slots_from(v, i, acc), acc),
        forall|j: int|
            i <= j < ascending::<String>(v.members.dom()).len() ==> covers(
                slots_from(v, i, acc),
                slots_of(v.members[#[trigger] ascending::<String>(v.members.dom())[j]]),
            ),
    decreases ascending::<String>(v.members.dom()).len() - i,
{
    let keys = ascending::<String>(v.members.dom());
    covers_is_reflexive(acc);
    if i < keys.len() {
        lemma_ascending::<String>(v.members.dom());
        assert(keys.to_set().contains(keys[i]));
        let slot = slots_of(v.members[keys[i]]);
        let next = join(acc, slot);
        join_covers_both(acc, slot);
        lemma_slots_from(v, i + 1, next);
        covers_is_transitive(slots_from(v, i, acc), next, acc);
        covers_is_transitive(slots_from(v, i, acc), next, slot);
    }
}

/// Packing keeps each slot: what a member of a packed value may be covers the slots of every
/// member of the value, and is complete when all of them are known.
pub proof fn packing_keeps_slots(v: Callable, key: Seq<char>, member: Seq<char>)
    requires
        v.members.dom().finite(),
        !v.bottom,
        v.members.contains_key(member),
    ensures
        covers(member_of(packed(v), key), slots_of(v.members[member])),
        is_known(v) ==> member_of(packed(v), key).complete || member_of(packed(v), key).bottom,
{
    let keys = ascending::<String>(v.members.dom());
    lemma_ascending::<String>(v.members.dom());
    assert(keys.to_set().contains(member));
    let j = choose|j: int| 0 <= j < keys.len() && keys[j] == member;
    lemma_slots_from(
        v,
        0,
        if v.members_complete {
            not_reached()
        } else {
            unknown()
        },
    );
    assert(covers(slots_of(v), slots_of(v.members[keys[j]])));
    dynamic_write_is_seen(shaped(), slots_of(v), key);
    covers_is_transitive(
        member_of(packed(v), key),
        slots_of(v),
        slots_of(v.members[member]),
    );
    if is_known(v) {
        lemma_slots_of(v);
    }
}

/// The last element of an array.
pub open spec fn last_of(v: Callable) -> Callable {
    match v.array_lengths {
        Some(lengths) => ends_from(v, ascending::<usize>(lengths), 0, not_reached()),
        None => any_member_of(v),
    }
}

pub open spec fn ends_from(v: Callable, lengths: Seq<usize>, i: int, acc: Callable) -> Callable
    decreases lengths.len() - i,
{
    if 0 <= i < lengths.len() {
        let next = if lengths[i] > 0 {
            join(acc, member_of(v, int_key((lengths[i] - 1) as nat)))
        } else {
            acc
        };
        ends_from(v, lengths, i + 1, next)
    } else {
        acc
    }
}

/// The element of a collection that an expression selects.
pub open spec fn looked_up(
    scope: ScopeView,
    collection: Callable,
    key: Option<SyntaxNode>,
) -> Callable {
    match key {
        Some(node) => match key_of(scope, node) {
            Some(name) => member_of(collection, name),
            None => any_member_of(collection),
        },
        None => any_member_of(collection),
    }
}

/// The item at a position of a list.
pub open spec fn nth(nodes: Seq<SyntaxNode>, i: int) -> Option<SyntaxNode> {
    if 0 <= i < nodes.len() {
        Some(nodes[i])
    } else {
        None
    }
}

/// A collection after a value was stored under the key that an expression selects.
pub open spec fn stored(
    scope: ScopeView,
    collection: Callable,
    key: SyntaxNode,
    value: Callable,
) -> Callable {
    match key_of(scope, key) {
        Some(name) => with_member(collection, name, value),
        None => with_dynamic(collection, value),
    }
}

/// What the targets from position `i` on return, joined with `acc`.
pub open spec fn results_from(
    results: Map<Seq<char>, Callable>,
    targets: Seq<Seq<char>>,
    i: int,
    acc: Option<Callable>,
) -> Option<Callable>
    decreases targets.len() - i,
{
    if 0 <= i < targets.len() {
        results_from(
            results,
            targets,
            i + 1,
            Some(join_optional(acc, returned(results, targets[i]))),
        )
    } else {
        acc
    }
}

/// What a call of a value gives. A value that may also be an unknown callable may give anything
/// besides what its targets give.
pub open spec fn call_result(
    called: Callable,
    results: Map<Seq<char>, Callable>,
    levels: nat,
) -> Callable {
    if called.bottom {
        not_reached()
    } else {
        let all = match results_from(results, ascending::<String>(called.targets), 0, None) {
            Some(value) => value,
            None => unknown(),
        };
        limited(
            if called.complete {
                all
            } else {
                join(all, unknown())
            },
            levels,
        )
    }
}

/// What an expression may be called as, followed through `levels` levels of expressions.
pub open spec fn value_of(
    scope: ScopeView,
    node: SyntaxNode,
    state: Map<LocalRef, Callable>,
    results: Map<Seq<char>, Callable>,
    levels: nat,
) -> Callable
    decreases levels, 0int, 0int,
{
    if levels == 0 {
        unknown()
    } else {
        let inner = (levels - 1) as nat;
        match direct_target(scope, node) {
            Some(target) => only(target),
            None => match kind_of(node.kind@) {
                NodeKind::Identifier => match resolved_at(scope, node) {
                    Some(Resolved::Local(local)) => held(state, local),
                    _ => unknown(),
                },
                NodeKind::Lambda => match text_under(
                    scope.names.lambda_ids,
                    place(scope.file, node),
                ) {
                    Some(id) => only(id),
                    None => unknown(),
                },
                NodeKind::Call => match operation_value(scope, node, state, results, inner) {
                    Some(value) => value,
                    None => match part(node, "callee"@) {
                        Some(callee) => call_result(
                            value_of(scope, callee, state, results, inner),
                            results,
                            levels,
                        ),
                        None => unknown(),
                    },
                },
                NodeKind::DotAccess => match (part(node, "obj"@), part(node, "field"@)) {
                    (Some(object), Some(field)) => member_of(
                        value_of(scope, object, state, results, inner),
                        match text_of(scope.source, field) {
                            Some(name) => name,
                            None => Seq::empty(),
                        },
                    ),
                    _ => unknown(),
                },
                NodeKind::Generic | NodeKind::Cast => part_value(
                    scope,
                    part(node, "expr"@),
                    state,
                    results,
                    inner,
                ),
                NodeKind::Parenthesized | NodeKind::NotNull => part_value(
                    scope,
                    part(node, "inner"@),
                    state,
                    results,
                    inner,
                ),
                NodeKind::Ternary => join(
                    part_value(scope, part(node, "consequence"@), state, results, inner),
                    part_value(scope, part(node, "alternative"@), state, results, inner),
                ),
                NodeKind::Tensor => elements_from(
                    scope,
                    named(node),
                    0,
                    false,
                    shaped(),
                    state,
                    results,
                    inner,
                ),
                NodeKind::TypedTuple => if collection_at(scope, node) == Some(
                    CollectionKind::Array,
                ) {
                    elements_from(
                        scope,
                        named(node),
                        0,
                        true,
                        Callable {
                            array_lengths: Some(
                                Set::empty().insert(named(node).len() as usize),
                            ),
                            ..shaped()
                        },
                        state,
                        results,
                        inner,
                    )
                } else {
                    elements_from(scope, named(node), 0, false, shaped(), state, results, inner)
                },
                NodeKind::Object => match part(node, "arguments"@) {
                    Some(list) => fields_from(
                        scope,
                        named(list),
                        0,
                        shaped(),
                        state,
                        results,
                        inner,
                    ),
                    None => shaped(),
                },
                NodeKind::Number | NodeKind::Text | NodeKind::Boolean | NodeKind::Null => plain(),
                _ => unknown(),
            },
        }
    }
}

/// The value of a part that may be missing.
pub open spec fn part_value(
    scope: ScopeView,
    node: Option<SyntaxNode>,
    state: Map<LocalRef, Callable>,
    results: Map<Seq<char>, Callable>,
    levels: nat,
) -> Callable
    decreases levels, 1int, 0int,
{
    match node {
        Some(inner) => value_of(scope, inner, state, results, levels),
        None => unknown(),
    }
}

/// A tuple or an array with its elements from position `i` on.
pub open spec fn elements_from(
    scope: ScopeView,
    elements: Seq<SyntaxNode>,
    i: int,
    array: bool,
    acc: Callable,
    state: Map<LocalRef, Callable>,
    results: Map<Seq<char>, Callable>,
    levels: nat,
) -> Callable
    decreases levels, 1int, elements.len() - i,
{
    if 0 <= i < elements.len() {
        let key = if array {
            int_key(i as nat)
        } else {
            decimal(i as nat)
        };
        elements_from(
            scope,
            elements,
            i + 1,
            array,
            with_member(acc, key, value_of(scope, elements[i], state, results, levels)),
            state,
            results,
            levels,
        )
    } else {
        acc
    }
}

/// An object with its fields from position `i` on.
pub open spec fn fields_from(
    scope: ScopeView,
    fields: Seq<SyntaxNode>,
    i: int,
    acc: Callable,
    state: Map<LocalRef, Callable>,
    results: Map<Seq<char>, Callable>,
    levels: nat,
) -> Callable
    decreases levels, 2int, fields.len() - i,
{
    if 0 <= i < fields.len() {
        let next = match part(fields[i], "name"@) {
            Some(name) => with_member(
                acc,
                match text_of(scope.source, name) {
                    Some(key) => key,
                    None => Seq::empty(),
                },
                part_value(scope, part(fields[i], "value"@), state, results, levels),
            ),
            None => acc,
        };
        fields_from(scope, fields, i + 1, next, state, results, levels)
    } else {
        acc
    }
}

/// What an operation on a collection gives, where the call is one.
pub open spec fn operation_value(
    scope: ScopeView,
    call: SyntaxNode,
    state: Map<LocalRef, Callable>,
    results: Map<Seq<char>, Callable>,
    levels: nat,
) -> Option<Callable>
    decreases levels, 3int, 0int,
{
    let arguments = arguments_of(call);
    match callee_of(call) {
        Some(callee) => match kind_of(callee.kind@) {
            NodeKind::Identifier => match text_of(scope.source, callee) {
                Some(name) => if is_library_name(scope, callee) {
                    match maker_of(name) {
                        Maker::Empty => Some(shaped()),
                        Maker::FromDictionary => match nth(arguments, 0) {
                            Some(dictionary) => Some(
                                value_of(scope, dictionary, state, results, levels),
                            ),
                            None => None,
                        },
                        Maker::Other => None,
                    }
                } else {
                    None
                },
                None => None,
            },
            NodeKind::DotAccess => match (receiver_of(call), method_field_of(call)) {
                (Some(receiver), Some(field)) => match text_of(scope.source, field) {
                    Some(name) => method_value(
                        scope,
                        arguments,
                        value_of(scope, receiver, state, results, levels),
                        method_of(name),
                        collection_at(scope, receiver),
                        is_library_name(scope, field),
                        state,
                        results,
                        levels,
                    ),
                    None => None,
                },
                _ => None,
            },
            _ => None,
        },
        None => None,
    }
}

/// What a method gives that is called on a collection.
pub open spec fn method_value(
    scope: ScopeView,
    arguments: Seq<SyntaxNode>,
    collection: Callable,
    method: Method,
    kind: Option<CollectionKind>,
    library: bool,
    state: Map<LocalRef, Callable>,
    results: Map<Seq<char>, Callable>,
    levels: nat,
) -> Option<Callable>
    decreases levels, 2int, 0int,
{
    if method is LoadValue && collection.members.contains_key(map_value_member()) {
        Some(member_of(collection, map_value_member()))
    } else if method is Pack && library {
        Some(packed(collection))
    } else if method is Unpack && library {
        match nth(arguments, 0) {
            Some(tuple) => Some(value_of(scope, tuple, state, results, levels)),
            None => None,
        }
    } else {
        match (kind, method) {
            (Some(CollectionKind::Array), Method::Get) => Some(
                looked_up(scope, collection, nth(arguments, 0)),
            ),
            (Some(CollectionKind::Array), Method::First) => Some(
                member_of(collection, int_key(0)),
            ),
            (Some(CollectionKind::Array), Method::Last | Method::Pop) => Some(last_of(collection)),
            (Some(CollectionKind::Mapping), Method::Get) => Some(
                found(looked_up(scope, collection, nth(arguments, 0))),
            ),
            (Some(CollectionKind::Mapping), Method::MustGet) => Some(
                looked_up(scope, collection, nth(arguments, 0)),
            ),
            (Some(CollectionKind::Mapping), Method::Store) => match (
                nth(arguments, 0),
                nth(arguments, 1),
            ) {
                (Some(key), Some(value)) => Some(
                    stored(
                        scope,
                        collection,
                        key,
                        value_of(scope, value, state, results, levels),
                    ),
                ),
                _ => Some(collection),
            },
            (
                Some(CollectionKind::Mapping),
                Method::StoreAndGet | Method::StoreIfAndGet | Method::DeleteAndGet,
            ) => Some(found(looked_up(scope, collection, nth(arguments, 0)))),
            (Some(CollectionKind::Mapping), Method::Find) => Some(
                found(any_member_of(collection)),
            ),
            (Some(CollectionKind::Mapping), Method::ToDictionary) => Some(collection),
            (Some(CollectionKind::List), Method::GetHead | Method::PopHead) => Some(
                member_of(collection, "0"@),
            ),
            (Some(CollectionKind::List), Method::GetTail) => Some(member_of(collection, "1"@)),
            _ => None,
        }
    }
}

impl CallableValue {
    /// A value that is not callable, and of which every member is listed.
    pub fn shape() -> (r: Self)
        ensures
            r@ == shaped(),
    {
        CallableValue { members_complete: true, ..CallableValue::non_callable() }
    }

    /// The result of a map lookup that found this value.
    pub fn map_lookup_result(self) -> (r: Self)
        ensures
            r@ == found(self@),
    {
        let mut result = CallableValue::shape();
        result.set_member(MAP_VALUE_MEMBER.to_owned(), self);
        result
    }

    /// A pair of a head and a tail.
    pub fn list_cell(head: Self, tail: Self) -> (r: Self)
        ensures
            r@ == cell_of(head@, tail@),
    {
        let mut result = CallableValue::shape();
        result.set_member("0".to_owned(), head);
        result.set_member("1".to_owned(), tail);
        result
    }

    /// Any of the values that stand in this value and in its members.
    pub fn slots(&self) -> (r: Self)
        ensures
            r@ == slots_of(self@),
        decreases self,
    {
        let n: usize = self.members.len();
        if n == 0 {
            assert(self@.members =~= Map::<Seq<char>, Callable>::empty());
        } else {
            assert(self.members.sequence().to_set().contains(self.members.sequence()[0]));
            assert(self@.members.contains_key(self.members.sequence()[0]));
        }
        if self.bottom || n == 0 {
            return self.clone();
        }
        let mut acc = if self.members_complete {
            CallableValue::bottom()
        } else {
            CallableValue::default()
        };
        let mut i: usize = 0;
        while i < n
            invariant
                i <= n,
                n == self.members.sequence().len(),
                self.members.sequence() == ascending::<String>(self.members@.dom()),
                slots_of(self@) == slots_from(self@, i as int, acc@),
            decreases n - i,
        {
            let member = self.members.value_at(i);
            let inner = member.slots();
            acc = merged_callable_value(&acc, &inner);
            i += 1;
        }
        acc
    }

    /// The value packed without the names of its members.
    pub fn packed(&self) -> (r: Self)
        ensures
            r@ == packed(self@),
    {
        let mut result = CallableValue::shape();
        result.set_dynamic_member(self.slots());
        result
    }

    /// The last element of an array.
    pub fn last_element(&self) -> (r: Self)
        ensures
            r@ == last_of(self@),
    {
        let lengths = match &self.array_lengths {
            Some(lengths) => lengths,
            None => {
                return self.any_member();
            },
        };
        let n: usize = lengths.len();
        let mut acc = CallableValue::bottom();
        let mut i: usize = 0;
        while i < n
            invariant
                i <= n,
                n == lengths.sequence().len(),
                last_of(self@) == ends_from(self@, lengths.sequence(), i as int, acc@),
            decreases n - i,
        {
            let length: usize = *lengths.at(i);
            if length > 0 {
                let element = self.member(int_text(length - 1).as_str());
                acc = merged_callable_value(&acc, &element);
            }
            i += 1;
        }
        acc
    }
}

/// What a call of a value gives.
pub fn called_result(called: &CallableValue, results: &Returns, levels: usize) -> (r: CallableValue)
    ensures
        r@ == call_result(called@, results@, levels as nat),
{
    if called.bottom {
        return CallableValue::bottom();
    }
    let mut all: Option<CallableValue> = None;
    let n: usize = called.targets.len();
    let mut i: usize = 0;
    while i < n
        invariant
            i <= n,
            n == called.targets.sequence().len(),
            called.targets.sequence() == ascending::<String>(called.targets@),
            results_from(results@, ascending::<String>(called.targets@), 0, None)
                == results_from(
                results@,
                ascending::<String>(called.targets@),
                i as int,
                opt_view(all),
            ),
        decreases n - i,
    {
        let target = called.targets.at(i);
        match results.get(target) {
            Some(value) => {
                merge_optional_callable_value(&mut all, value);
            },
            None => {
                merge_optional_callable_value(&mut all, &CallableValue::default());
            },
        }
        i += 1;
    }
    let mut joined = match all {
        Some(value) => value,
        None => CallableValue::default(),
    };
    if !called.complete {
        joined = merged_callable_value(&joined, &CallableValue::default());
    }
    joined.limit_member_depth(levels);
    joined
}

impl<'a> Scope<'a> {
    /// What an expression may be called as.
    pub fn callable_value(&self, node: &SyntaxNode, state: &State, results: &Returns) -> (r:
        CallableValue)
        ensures
            r@ == value_of(self@, *node, state@, results@, MAX_VALUE_DEPTH as nat),
    {
        self.callable_value_depth(node, state, results, MAX_VALUE_DEPTH)
    }

    /// The element of a collection that an expression selects.
    pub fn collection_lookup(&self, collection: &CallableValue, key: Option<&SyntaxNode>) -> (r:
        CallableValue)
        ensures
            key matches Some(node) ==> r@ == looked_up(self@, collection@, Some(*node)),
            key is None ==> r@ == looked_up(self@, collection@, None),
    {
        match key {
            Some(node) => match self.collection_key(node) {
                Some(name) => collection.member(name.as_str()),
                None => collection.any_member(),
            },
            None => collection.any_member(),
        }
    }

    /// Stores a value under the key that an expression selects.
    pub fn store(&self, collection: &mut CallableValue, key: &SyntaxNode, value: CallableValue)
        ensures
            final(collection)@ == stored(self@, old(collection)@, *key, value@),
    {
        match self.collection_key(key) {
            Some(name) => {
                collection.set_member(name, value);
            },
            None => {
                collection.set_dynamic_member(value);
            },
        }
    }

    fn part_value(
        &self,
        node: Option<&SyntaxNode>,
        state: &State,
        results: &Returns,
        levels: usize,
    ) -> (r: CallableValue)
        ensures
            node matches Some(inner) ==> r@ == part_value(
                self@,
                Some(*inner),
                state@,
                results@,
                levels as nat,
            ),
            node is None ==> r@ == part_value(self@, None, state@, results@, levels as nat),
        decreases levels, 1int, 0int,
    {
        match node {
            Some(inner) => self.callable_value_depth(inner, state, results, levels),
            None => CallableValue::default(),
        }
    }

    /// What an expression may be called as, followed through `levels` levels of expressions.
    pub fn callable_value_depth(
        &self,
        node: &SyntaxNode,
        state: &State,
        results: &Returns,
        levels: usize,
    ) -> (r: CallableValue)
        ensures
            r@ == value_of(self@, *node, state@, results@, levels as nat),
        decreases levels, 0int, 0int,
    {
        if levels == 0 {
            return CallableValue::default();
        }
        let inner: usize = levels - 1;
        match self.direct_callable_target(node) {
            Some(target) => {
                return CallableValue::target(target);
            },
            None => {},
        }
        match node.node_kind() {
            NodeKind::Identifier => match self.resolved_node(node) {
                Some(Resolved::Local(local)) => match state.get(&local) {
                    Some(value) => value.clone(),
                    None => CallableValue::default(),
                },
                _ => CallableValue::default(),
            },
            NodeKind::Lambda => match self.names.lambda_ids.get(&self.place(node)) {
                Some(id) => CallableValue::target(id.clone()),
                None => CallableValue::default(),
            },
            NodeKind::Call => {
                match self.collection_call_value(node, state, results, inner) {
                    Some(value) => {
                        return value;
                    },
                    None => {},
                }
                match node.part("callee") {
                    Some(callee) => {
                        let called = self.callable_value_depth(callee, state, results, inner);
                        called_result(&called, results, levels)
                    },
                    None => CallableValue::default(),
                }
            },
            NodeKind::DotAccess => match (node.part("obj"), node.part("field")) {
                (Some(object), Some(field)) => {
                    let value = self.callable_value_depth(object, state, results, inner);
                    match field.text(self.source.as_str()) {
                        Some(name) => value.member(name.as_str()),
                        None => {
                            let empty = String::new();
                            assert(empty@ =~= Seq::empty());
                            value.member(empty.as_str())
                        },
                    }
                },
                _ => CallableValue::default(),
            },
            NodeKind::Generic | NodeKind::Cast => {
                self.part_value(node.part("expr"), state, results, inner)
            },
            NodeKind::Parenthesized | NodeKind::NotNull => {
                self.part_value(node.part("inner"), state, results, inner)
            },
            NodeKind::Ternary => {
                let consequence = self.part_value(
                    node.part("consequence"),
                    state,
                    results,
                    inner,
                );
                let alternative = self.part_value(
                    node.part("alternative"),
                    state,
                    results,
                    inner,
                );
                merged_callable_value(&consequence, &alternative)
            },
            NodeKind::Tensor => {
                let elements = node.named_children();
                assert(pointees(elements@) =~= named(*node));
                self.with_elements(&elements, false, CallableValue::shape(), state, results, inner)
            },
            NodeKind::TypedTuple => {
                let elements = node.named_children();
                assert(pointees(elements@) =~= named(*node));
                let array = match self.collection_kind(node) {
                    Some(CollectionKind::Array) => true,
                    _ => false,
                };
                let mut start = CallableValue::shape();
                if array {
                    let mut lengths: KeySet<usize> = KeySet::new();
                    lengths.insert(elements.len());
                    start.array_lengths = Some(lengths);
                }
                self.with_elements(&elements, array, start, state, results, inner)
            },
            NodeKind::Object => {
                let start = CallableValue::shape();
                match node.part("arguments") {
                    Some(list) => {
                        let fields = list.named_children();
                        assert(pointees(fields@) =~= named(*list));
                        self.with_fields(&fields, start, state, results, inner)
                    },
                    None => start,
                }
            },
            NodeKind::Number | NodeKind::Text | NodeKind::Boolean | NodeKind::Null => {
                CallableValue::non_callable()
            },
            _ => CallableValue::default(),
        }
    }

    fn with_elements(
        &self,
        elements: &Vec<&SyntaxNode>,
        array: bool,
        start: CallableValue,
        state: &State,
        results: &Returns,
        levels: usize,
    ) -> (r: CallableValue)
        ensures
            r@ == elements_from(
                self@,
                pointees(elements@),
                0,
                array,
                start@,
                state@,
                results@,
                levels as nat,
            ),
        decreases levels, 1int, 0int,
    {
        let mut value = start;
        let n: usize = elements.len();
        let mut i: usize = 0;
        while i < n
            invariant
                i <= n,
                n == elements@.len(),
                elements_from(
                    self@,
                    pointees(elements@),
                    0,
                    array,
                    start@,
                    state@,
                    results@,
                    levels as nat,
                ) == elements_from(
                    self@,
                    pointees(elements@),
                    i as int,
                    array,
                    value@,
                    state@,
                    results@,
                    levels as nat,
                ),
            decreases n - i,
        {
            let key = if array {
                int_text(i)
            } else {
                decimal_text(i as u64)
            };
            let element = self.callable_value_depth(elements[i], state, results, levels);
            value.set_member(key, element);
            i += 1;
        }
        value
    }

    fn with_fields(
        &self,
        fields: &Vec<&SyntaxNode>,
        start: CallableValue,
        state: &State,
        results: &Returns,
        levels: usize,
    ) -> (r: CallableValue)
        ensures
            r@ == fields_from(
                self@,
                pointees(fields@),
                0,
                start@,
                state@,
                results@,
                levels as nat,
            ),
        decreases levels, 2int, 0int,
    {
        let mut value = start;
        let n: usize = fields.len();
        let mut i: usize = 0;
        while i < n
            invariant
                i <= n,
                n == fields@.len(),
                fields_from(
                    self@,
                    pointees(fields@),
                    0,
                    start@,
                    state@,
                    results@,
                    levels as nat,
                ) == fields_from(
                    self@,
                    pointees(fields@),
                    i as int,
                    value@,
                    state@,
                    results@,
                    levels as nat,
                ),
            decreases n - i,
        {
            match fields[i].part("name") {
                Some(name) => {
                    let key = match name.text(self.source.as_str()) {
                        Some(text) => text,
                        None => {
                            let empty = String::new();
                            assert(empty@ =~= Seq::empty());
                            empty
                        },
                    };
                    let member = self.part_value(
                        fields[i].part("value"),
                        state,
                        results,
                        levels,
                    );
                    value.set_member(key, member);
                },
                None => {},
            }
            i += 1;
        }
        value
    }

    /// What an operation on a collection gives, where the call is one.
    pub fn collection_call_value(
        &self,
        call: &SyntaxNode,
        state: &State,
        results: &Returns,
        levels: usize,
    ) -> (r: Option<CallableValue>)
        ensures
            opt_view(r) == operation_value(self@, *call, state@, results@, levels as nat),
        decreases levels, 3int, 0int,
    {
        let arguments = call.call_arguments();
        let callee = match call.called() {
            Some(callee) => callee,
            None => {
                return None;
            },
        };
        match callee.node_kind() {
            NodeKind::Identifier => {
                let name = match callee.text(self.source.as_str()) {
                    Some(name) => name,
                    None => {
                        return None;
                    },
                };
                if !self.is_library_name(callee) {
                    return None;
                }
                match classify_maker(name.as_str()) {
                    Maker::Empty => Some(CallableValue::shape()),
                    Maker::FromDictionary => if arguments.len() > 0 {
                        assert(pointees(arguments@)[0] == *arguments@[0]);
                        Some(self.callable_value_depth(arguments[0], state, results, levels))
                    } else {
                        None
                    },
                    Maker::Other => None,
                }
            },
            NodeKind::DotAccess => {
                let receiver = match call.receiver() {
                    Some(receiver) => receiver,
                    None => {
                        return None;
                    },
                };
                let field = match call.method_field() {
                    Some(field) => field,
                    None => {
                        return None;
                    },
                };
                let name = match field.text(self.source.as_str()) {
                    Some(name) => name,
                    None => {
                        return None;
                    },
                };
                let collection = self.callable_value_depth(receiver, state, results, levels);
                self.collection_method_value(
                    &arguments,
                    collection,
                    classify_method(name.as_str()),
                    self.collection_kind(receiver),
                    self.is_library_name(field),
                    state,
                    results,
                    levels,
                )
            },
            _ => None,
        }
    }

    fn collection_method_value(
        &self,
        arguments: &Vec<&SyntaxNode>,
        collection: CallableValue,
        method: Method,
        kind: Option<CollectionKind>,
        library: bool,
        state: &State,
        results: &Returns,
        levels: usize,
    ) -> (r: Option<CallableValue>)
        ensures
            opt_view(r) == method_value(
                self@,
                pointees(arguments@),
                collection@,
                method,
                kind,
                library,
                state@,
                results@,
                levels as nat,
            ),
        decreases levels, 2int, 0int,
    {
        let first: Option<&SyntaxNode> = if arguments.len() > 0 {
            Some(arguments[0])
        } else {
            None
        };
        let second: Option<&SyntaxNode> = if arguments.len() > 1 {
            Some(arguments[1])
        } else {
            None
        };
        match method {
            Method::LoadValue => {
                if collection.members.contains_key(&MAP_VALUE_MEMBER.to_owned()) {
                    return Some(collection.member(MAP_VALUE_MEMBER));
                }
            },
            Method::Pack => {
                if library {
                    return Some(collection.packed());
                }
            },
            Method::Unpack => {
                if library {
                    return match first {
                        Some(tuple) => Some(
                            self.callable_value_depth(tuple, state, results, levels),
                        ),
                        None => None,
                    };
                }
            },
            _ => {},
        }
        match (kind, method) {
            (Some(CollectionKind::Array), Method::Get) => Some(
                self.collection_lookup(&collection, first),
            ),
            (Some(CollectionKind::Array), Method::First) => Some(
                collection.member(int_text(0).as_str()),
            ),
            (Some(CollectionKind::Array), Method::Last | Method::Pop) => Some(
                collection.last_element(),
            ),
            (Some(CollectionKind::Mapping), Method::Get) => Some(
                self.collection_lookup(&collection, first).map_lookup_result(),
            ),
            (Some(CollectionKind::Mapping), Method::MustGet) => Some(
                self.collection_lookup(&collection, first),
            ),
            (Some(CollectionKind::Mapping), Method::Store) => match (first, second) {
                (Some(key), Some(value)) => {
                    let written = self.callable_value_depth(value, state, results, levels);
                    let mut updated = collection;
                    self.store(&mut updated, key, written);
                    Some(updated)
                },
                _ => Some(collection),
            },
            (
                Some(CollectionKind::Mapping),
                Method::StoreAndGet | Method::StoreIfAndGet | Method::DeleteAndGet,
            ) => Some(self.collection_lookup(&collection, first).map_lookup_result()),
            (Some(CollectionKind::Mapping), Method::Find) => Some(
                collection.any_member().map_lookup_result(),
            ),
            (Some(CollectionKind::Mapping), Method::ToDictionary) => Some(collection),
            (Some(CollectionKind::List), Method::GetHead | Method::PopHead) => Some(
                collection.member("0"),
            ),
            (Some(CollectionKind::List), Method::GetTail) => Some(collection.member("1")),
            _ => None,
        }
    }
}

} // verus!
