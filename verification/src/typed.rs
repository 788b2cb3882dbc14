//! Laws of the types that a snapshot lists, and of the types that it gives to nodes.
use crate::facts::{file_symbols, FileFacts, ProjectFacts, SymbolFact, TypeData, TypeFact};
use crate::ids::{Span, SpanKey, SymbolRef};
use crate::inspect::{built, names_of, project_forest};
use crate::known::{declares, lemma_file_given, lemma_file_in_order, symbols_lie_at_paths};
use crate::model::{NodeType, NodeTypeView, TypeInfoView};
use crate::node_types::{
    body_numbers_ok, body_order, expression_order, file_numbers_ok, first_start_from, numbers_ok,
    project_types, typed_all_from, typed_bodies_from, typed_expressions_from, typed_files_from,
    typed_symbols_from, with_typed, FoundTypesView, TypingView,
};
use crate::promises::files_in_order;
use crate::sort::{
    deduped, dropping_repeats_adds_nothing, sorting_keeps_items, stable_sorted, Repeats,
};
use crate::symbols::Slot;
use crate::text::{decimal, decimals_differ};
use crate::types::{
    lemma_unlisted_insert, lemma_with_type, lemma_with_types_from, next_id, type_elements,
    type_info, type_parts, type_result, types_closed, unlisted, with_type, with_types_from,
    ListedView,
};
use crate::written::{lemma_one_is_kept, lemma_pushed};
use vstd::prelude::*;

verus! {

/// A list of ids leads to types, in order.
pub open spec fn leads_to(
    list: Seq<Seq<char>>,
    numbers: Seq<u32>,
    ids: Map<u32, Seq<char>>,
) -> bool {
    &&& list.len() == numbers.len()
    &&& forall|j: int|
        0 <= j < numbers.len() ==> ids.contains_key(#[trigger] numbers[j]) && list[j]
            == ids[numbers[j]]
}

/// The id of the declaration that a type refers to.
pub open spec fn refers_to(
    id: Option<Seq<char>>,
    symbols: Map<SymbolRef, Seq<char>>,
    symbol: SymbolRef,
) -> bool {
    match id {
        Some(text) => symbols.contains_key(symbol) && symbols[symbol] == text,
        None => !symbols.contains_key(symbol),
    }
}

/// A listed type is what is known of a type: its text, its kind, the declaration that it refers
/// to, the types that it is made of and the type that it returns.
pub open spec fn describes(
    info: TypeInfoView,
    fact: TypeFact,
    ids: Map<u32, Seq<char>>,
    symbols: Map<SymbolRef, Seq<char>>,
) -> bool {
    &&& info.display == fact.display@
    &&& fact.data is Struct ==> info.kind == "struct"@
    &&& fact.data is Enum ==> info.kind == "enum"@
    &&& fact.data is TypeAlias ==> info.kind == "typeAlias"@
    &&& fact.data is Tensor ==> info.kind == "tensor"@
    &&& fact.data is Tuple ==> info.kind == "tuple"@
    &&& fact.data is Array ==> info.kind == "array"@
    &&& fact.data is Union ==> info.kind == "union"@
    &&& fact.data is Function ==> info.kind == "function"@
    &&& fact.data is TypeParameter ==> info.kind == "typeParameter"@
    &&& fact.data is Generic ==> info.kind == "generic"@
    &&& fact.data is Builtin ==> info.kind == "builtin"@
    &&& fact.data is Int ==> info.kind == "integer"@
    &&& fact.data is Bool ==> info.kind == "boolean"@
    &&& fact.data is Cell ==> info.kind == "cell"@
    &&& fact.data is Slice ==> info.kind == "slice"@
    &&& fact.data is Builder ==> info.kind == "builder"@
    &&& fact.data is Continuation ==> info.kind == "continuation"@
    &&& fact.data is Address ==> info.kind == "address"@
    &&& fact.data is Mapping ==> info.kind == "map"@
    &&& fact.data is Bits ==> info.kind == "bits"@
    &&& fact.data is Bytes ==> info.kind == "bytes"@
    &&& fact.data is UntypedTuple ==> info.kind == "untypedTuple"@
    &&& fact.data is Null ==> info.kind == "null"@
    &&& fact.data is Void ==> info.kind == "void"@
    &&& fact.data is Never ==> info.kind == "never"@
    &&& fact.data is Auto ==> info.kind == "auto"@
    &&& fact.data is Undefined ==> info.kind == "undefined"@
    &&& fact.data is Unknown ==> info.kind == "unknown"@
    &&& match fact.data {
        TypeData::Struct { symbol, arguments, .. } => refers_to(info.symbol_id, symbols, symbol)
            && leads_to(info.element_types, arguments@, ids),
        TypeData::Enum { symbol } => refers_to(info.symbol_id, symbols, symbol)
            && info.element_types.len() == 0,
        TypeData::TypeAlias { symbol, inner, arguments } => refers_to(
            info.symbol_id,
            symbols,
            symbol,
        ) && leads_to(info.element_types, seq![inner] + arguments@, ids),
        TypeData::Tensor(items) => info.symbol_id is None && leads_to(
            info.element_types,
            items@,
            ids,
        ),
        TypeData::Tuple(items) => info.symbol_id is None && leads_to(
            info.element_types,
            items@,
            ids,
        ),
        TypeData::Array(item) => info.symbol_id is None && leads_to(
            info.element_types,
            seq![item],
            ids,
        ),
        TypeData::Union(items) => info.symbol_id is None && leads_to(
            info.element_types,
            items@,
            ids,
        ),
        TypeData::Function { parameters, .. } => info.symbol_id is None && leads_to(
            info.element_types,
            parameters@,
            ids,
        ),
        TypeData::Generic { inner, arguments } => info.symbol_id is None && leads_to(
            info.element_types,
            seq![inner] + arguments@,
            ids,
        ),
        TypeData::Mapping { key, value } => info.symbol_id is None && leads_to(
            info.element_types,
            seq![key, value],
            ids,
        ),
        _ => info.symbol_id is None && info.element_types.len() == 0,
    }
    &&& match fact.data {
        TypeData::Function { result, .. } => ids.contains_key(result) && info.return_type == Some(
            ids[result],
        ),
        _ => info.return_type is None,
    }
}

/// A list holds what is known of a type, under the id of the type.
pub open spec fn lists_type(
    listed: ListedView,
    types: Seq<TypeFact>,
    symbols: Map<SymbolRef, Seq<char>>,
    k: u32,
    i: int,
) -> bool {
    &&& 0 <= i < listed.types.len()
    &&& k < types.len()
    &&& listed.ids.contains_key(k)
    &&& listed.types[i].id == listed.ids[k]
    &&& describes(listed.types[i], types[k as int], listed.ids, symbols)
}

/// Different types have different ids.
pub open spec fn ids_differ(ids: Map<u32, Seq<char>>) -> bool {
    forall|a: u32, b: u32|
        #![trigger ids[a], ids[b]]
        ids.contains_key(a) && ids.contains_key(b) && ids[a] == ids[b] ==> a == b
}

/// A list holds what is known of a type.
pub open spec fn has_type(
    listed: ListedView,
    types: Seq<TypeFact>,
    symbols: Map<SymbolRef, Seq<char>>,
    k: u32,
) -> bool {
    exists|i: int| lists_type(listed, types, symbols, k, i)
}

/// What is listed at a position is what is known of some type.
pub open spec fn is_true_at(
    listed: ListedView,
    types: Seq<TypeFact>,
    symbols: Map<SymbolRef, Seq<char>>,
    i: int,
) -> bool {
    exists|k: u32| lists_type(listed, types, symbols, k, i)
}

/// An id is one of the first `n`.
pub open spec fn is_numbered(id: Seq<char>, n: nat) -> bool {
    exists|m: nat| m < n && id == "t"@ + #[trigger] decimal(m)
}

/// Each type of a list with an id, but for those that are not finished, is listed as what is
/// known of it, and whatever is listed is what is known of a type. Different types have
/// different ids.
pub open spec fn list_is_true(
    listed: ListedView,
    types: Seq<TypeFact>,
    symbols: Map<SymbolRef, Seq<char>>,
    unfinished: Set<u32>,
) -> bool {
    &&& forall|k: u32| #[trigger]
        listed.ids.contains_key(k) && !unfinished.contains(k) ==> has_type(
            listed,
            types,
            symbols,
            k,
        )
    &&& forall|i: int|
        0 <= i < listed.types.len() ==> #[trigger] is_true_at(listed, types, symbols, i)
    &&& ids_differ(listed.ids)
    &&& listed.ids.dom().finite()
    &&& forall|k: u32| #[trigger]
        listed.ids.contains_key(k) ==> is_numbered(listed.ids[k], listed.ids.dom().len())
}

/// More ids and more entries keep what is listed.
proof fn lemma_still_listed(
    before: ListedView,
    after: ListedView,
    types: Seq<TypeFact>,
    symbols: Map<SymbolRef, Seq<char>>,
    k: u32,
    i: int,
)
    requires
        lists_type(before, types, symbols, k, i),
        i < after.types.len(),
        after.types[i] == before.types[i],
        forall|n: u32| #[trigger]
            before.ids.contains_key(n) ==> after.ids.contains_key(n) && after.ids[n]
                == before.ids[n],
    ensures
        lists_type(after, types, symbols, k, i),
{
}

proof fn lemma_numbered(ids: Map<u32, Seq<char>>, number: u32)
    requires
        ids.dom().finite(),
        !ids.contains_key(number),
        ids_differ(ids),
        forall|k: u32| #[trigger] ids.contains_key(k) ==> is_numbered(ids[k], ids.dom().len()),
    ensures
        ({
            let more = ids.insert(number, "t"@ + decimal(ids.dom().len()));
            &&& ids_differ(more)
            &&& more.dom().finite()
            &&& forall|k: u32| #[trigger]
                more.contains_key(k) ==> is_numbered(more[k], more.dom().len())
        }),
{
    let n = ids.dom().len();
    let more = ids.insert(number, "t"@ + decimal(n));
    assert(more.dom() =~= ids.dom().insert(number));
    assert(more.dom().len() == n + 1);
    assert forall|k: u32| #[trigger] more.contains_key(k) implies is_numbered(
        more[k],
        more.dom().len(),
    ) by {
        if k == number {
            assert(more[k] == "t"@ + decimal(n));
        } else {
            assert(ids.contains_key(k));
            let m = choose|m: nat| m < n && ids[k] == "t"@ + #[trigger] decimal(m);
            assert(m < more.dom().len() && more[k] == "t"@ + decimal(m));
        }
    }
    assert forall|a: u32, b: u32|
        #![trigger more[a], more[b]]
        more.contains_key(a) && more.contains_key(b) && more[a] == more[b] implies a == b by {
        if a != b && (a == number || b == number) {
            let other = if a == number {
                b
            } else {
                a
            };
            assert(ids.contains_key(other));
            let m = choose|m: nat| m < n && ids[other] == "t"@ + #[trigger] decimal(m);
            assert(("t"@ + decimal(m)).skip("t"@.len() as int) =~= decimal(m));
            assert(("t"@ + decimal(n)).skip("t"@.len() as int) =~= decimal(n));
            decimals_differ(m, n);
        } else if a != b {
            assert(ids[a] == ids[b]);
        }
    }
}

proof fn lemma_described(
    types: Seq<TypeFact>,
    symbols: Map<SymbolRef, Seq<char>>,
    number: u32,
    id: Seq<char>,
    ids: Map<u32, Seq<char>>,
)
    requires
        number < types.len(),
        forall|j: int|
            0 <= j < type_parts(types[number as int].data).len() ==> ids.contains_key(
                #[trigger] type_parts(types[number as int].data)[j],
            ),
    ensures
        describes(
            type_info(types[number as int], id, symbols, ids),
            types[number as int],
            ids,
            symbols,
        ),
{
    let fact = types[number as int];
    let info = type_info(fact, id, symbols, ids);
    let elements = type_elements(fact.data);
    let parts = type_parts(fact.data);
    assert forall|j: int| 0 <= j < elements.len() implies ids.contains_key(#[trigger] elements[j])
        && info.element_types[j] == ids[elements[j]] by {
        assert(parts[j] == elements[j]);
        assert(ids.contains_key(parts[j]));
    }
    match type_result(fact.data) {
        Some(result) => {
            assert(parts[elements.len() as int] == result);
            assert(ids.contains_key(parts[elements.len() as int]));
        },
        None => {},
    }
    assert(leads_to(info.element_types, elements, ids));
}

proof fn lemma_true_with_type(
    types: Seq<TypeFact>,
    symbols: Map<SymbolRef, Seq<char>>,
    number: u32,
    listed: ListedView,
    unfinished: Set<u32>,
)
    requires
        types.len() <= 0x1_0000_0000,
        types_closed(types),
        list_is_true(listed, types, symbols, unfinished),
    ensures
        list_is_true(with_type(types, symbols, number, listed), types, symbols, unfinished),
    decreases unlisted(listed.ids, types.len()), 0int, 0int,
{
    if !(listed.ids.contains_key(number) || number >= types.len()) {
        let id = next_id(listed.ids);
        lemma_unlisted_insert(listed.ids, number, id, types.len());
        let entered = ListedView { ids: listed.ids.insert(number, id), ..listed };
        let fact = types[number as int];
        let parts = type_parts(fact.data);
        let more = unfinished.insert(number);
        lemma_numbered(listed.ids, number);
        assert(list_is_true(entered, types, symbols, more)) by {
            assert forall|k: u32| #[trigger] entered.ids.contains_key(k) && !more.contains(
                k,
            ) implies has_type(entered, types, symbols, k) by {
                assert(listed.ids.contains_key(k));
                let i = choose|i: int| lists_type(listed, types, symbols, k, i);
                lemma_still_listed(listed, entered, types, symbols, k, i);
            }
            assert forall|i: int| 0 <= i < entered.types.len() implies #[trigger] is_true_at(
                entered,
                types,
                symbols,
                i,
            ) by {
                assert(is_true_at(listed, types, symbols, i));
                let k = choose|k: u32| lists_type(listed, types, symbols, k, i);
                lemma_still_listed(listed, entered, types, symbols, k, i);
            }
        }
        lemma_with_types_from(types, symbols, parts, 0, entered);
        lemma_true_with_types_from(types, symbols, parts, 0, entered, more);
        let inner = with_types_from(types, symbols, parts, 0, entered);
        let after = with_type(types, symbols, number, listed);
        let info = type_info(fact, id, symbols, inner.ids);
        assert(entered.ids.contains_key(number));
        assert forall|j: int| 0 <= j < parts.len() implies inner.ids.contains_key(
            #[trigger] parts[j],
        ) by {
            assert(type_parts(types[number as int].data)[j] < types.len());
        }
        lemma_described(types, symbols, number, id, inner.ids);
        let last = inner.types.len() as int;
        assert(after.types[last] == info);
        assert(after.ids == inner.ids);
        assert(lists_type(after, types, symbols, number, last));
        assert forall|k: u32| #[trigger] after.ids.contains_key(k) && !unfinished.contains(
            k,
        ) implies has_type(after, types, symbols, k) by {
            if k != number {
                assert(inner.ids.contains_key(k) && !more.contains(k));
                let i = choose|i: int| lists_type(inner, types, symbols, k, i);
                lemma_still_listed(inner, after, types, symbols, k, i);
            }
        }
        assert forall|i: int| 0 <= i < after.types.len() implies #[trigger] is_true_at(
            after,
            types,
            symbols,
            i,
        ) by {
            if i < last {
                assert(is_true_at(inner, types, symbols, i));
                let k = choose|k: u32| lists_type(inner, types, symbols, k, i);
                lemma_still_listed(inner, after, types, symbols, k, i);
            }
        }
    }
}

proof fn lemma_true_with_types_from(
    types: Seq<TypeFact>,
    symbols: Map<SymbolRef, Seq<char>>,
    numbers: Seq<u32>,
    i: int,
    listed: ListedView,
    unfinished: Set<u32>,
)
    requires
        types.len() <= 0x1_0000_0000,
        types_closed(types),
        0 <= i <= numbers.len(),
        list_is_true(listed, types, symbols, unfinished),
    ensures
        list_is_true(
            with_types_from(types, symbols, numbers, i, listed),
            types,
            symbols,
            unfinished,
        ),
    decreases unlisted(listed.ids, types.len()), 1int, numbers.len() - i,
{
    if i < numbers.len() {
        let next = with_type(types, symbols, numbers[i], listed);
        lemma_with_type(types, symbols, numbers[i], listed);
        lemma_true_with_type(types, symbols, numbers[i], listed, unfinished);
        lemma_true_with_types_from(types, symbols, numbers, i + 1, next, unfinished);
    }
}

/// A file gives the type of what stands at a place: of an expression, or of a symbol at its name
/// and at its body.
pub open spec fn is_typed_at(file: FileFacts, place: SpanKey, n: u32) -> bool {
    ||| exists|b: int, e: int| #[trigger] types_expression(file, place, n, b, e)
    ||| exists|s: SymbolFact| #[trigger] declares(file, s) && types_symbol(s, place, n)
}

/// An expression of a body stands at a place, and has a type.
pub open spec fn types_expression(file: FileFacts, place: SpanKey, n: u32, b: int, e: int) -> bool {
    &&& 0 <= b < file.bodies@.len()
    &&& 0 <= e < file.bodies@[b].expressions@.len()
    &&& place.file == file.id
    &&& file.bodies@[b].expressions@[e].span == (Span { start: place.start, end: place.end })
    &&& file.bodies@[b].expressions@[e].type_number == n
}

/// The name or the body of a symbol stands at a place, and the symbol has a type.
pub open spec fn types_symbol(s: SymbolFact, place: SpanKey, n: u32) -> bool {
    let span = Span { start: place.start, end: place.end };
    &&& s.type_number == Some(n)
    &&& place.file == s.id.file
    &&& s.name_span == span || s.body_span == span
}

/// One of the files gives the type of what stands at a place.
pub open spec fn is_typed(files: Seq<FileFacts>, place: SpanKey, n: u32) -> bool {
    exists|at: int| 0 <= at < files.len() && #[trigger] is_typed_at(files[at], place, n)
}

/// A node is given the type of what stands at its place.
pub open spec fn types_node(
    typing: TypingView,
    files: Seq<FileFacts>,
    ids: Map<u32, Seq<char>>,
    t: NodeTypeView,
    place: SpanKey,
    n: u32,
) -> bool {
    &&& typing.places.contains_key(place)
    &&& typing.places[place] == t.node_id
    &&& is_typed(files, place, n)
    &&& ids.contains_key(n)
    &&& ids[n] == t.type_id
}

/// Every node is given the type of what stands at its place.
pub open spec fn nodes_are_true(
    typing: TypingView,
    files: Seq<FileFacts>,
    found: FoundTypesView,
) -> bool {
    forall|t: NodeTypeView| #[trigger]
        found.node_types.contains(t) ==> exists|place: SpanKey, n: u32|
            types_node(typing, files, found.listed.ids, t, place, n)
}

/// What is found holds all that was found before.
spec fn found_more(after: FoundTypesView, before: FoundTypesView) -> bool {
    &&& forall|k: u32| #[trigger]
        before.listed.ids.contains_key(k) ==> after.listed.ids.contains_key(k)
            && after.listed.ids[k] == before.listed.ids[k]
    &&& forall|t: NodeTypeView|
        before.node_types.contains(t) ==> #[trigger] after.node_types.contains(t)
}

/// The type of what stands at a place is found.
spec fn is_found(typing: TypingView, found: FoundTypesView, place: SpanKey, n: u32) -> bool {
    typing.places.contains_key(place) ==> found.listed.ids.contains_key(n)
        && found.node_types.contains(
        NodeTypeView { node_id: typing.places[place], type_id: found.listed.ids[n] },
    )
}

spec fn found_ok(typing: TypingView, files: Seq<FileFacts>, found: FoundTypesView) -> bool {
    &&& list_is_true(found.listed, typing.types, typing.ids, Set::empty())
    &&& nodes_are_true(typing, files, found)
}

spec fn typing_ok(typing: TypingView) -> bool {
    &&& typing.types.len() <= 0x1_0000_0000
    &&& types_closed(typing.types)
}

proof fn lemma_found_stays(
    typing: TypingView,
    after: FoundTypesView,
    before: FoundTypesView,
    place: SpanKey,
    n: u32,
)
    requires
        found_more(after, before),
        is_found(typing, before, place, n),
    ensures
        is_found(typing, after, place, n),
{
    if typing.places.contains_key(place) {
        assert(before.listed.ids.contains_key(n));
    }
}

proof fn lemma_more_and_more(a: FoundTypesView, b: FoundTypesView, c: FoundTypesView)
    requires
        found_more(b, a),
        found_more(c, b),
    ensures
        found_more(c, a),
{
    assert forall|k: u32| #[trigger] a.listed.ids.contains_key(k) implies c.listed.ids.contains_key(
        k,
    ) && c.listed.ids[k] == a.listed.ids[k] by {
        assert(b.listed.ids.contains_key(k));
    }
}

proof fn lemma_typed(
    typing: TypingView,
    files: Seq<FileFacts>,
    place: SpanKey,
    n: u32,
    acc: FoundTypesView,
)
    requires
        typing_ok(typing),
        found_ok(typing, files, acc),
        is_typed(files, place, n),
        n < typing.types.len(),
    ensures
        ({
            let after = with_typed(
                typing,
                place.file,
                Span { start: place.start, end: place.end },
                n,
                acc,
            );
            &&& found_ok(typing, files, after)
            &&& found_more(after, acc)
            &&& is_found(typing, after, place, n)
        }),
{
    let span = Span { start: place.start, end: place.end };
    let after = with_typed(typing, place.file, span, n, acc);
    if typing.places.contains_key(place) {
        let node_id = typing.places[place];
        let listed = with_type(typing.types, typing.ids, n, acc.listed);
        lemma_with_type(typing.types, typing.ids, n, acc.listed);
        lemma_true_with_type(typing.types, typing.ids, n, acc.listed, Set::empty());
        let t = NodeTypeView { node_id, type_id: listed.ids[n] };
        lemma_pushed(acc.node_types, t);
        assert(after.node_types == acc.node_types.push(t));
        assert forall|u: NodeTypeView| #[trigger] after.node_types.contains(u) implies exists|
            p: SpanKey,
            m: u32,
        | types_node(typing, files, after.listed.ids, u, p, m) by {
            if acc.node_types.contains(u) {
                let (p, m) = choose|p: SpanKey, m: u32|
                    types_node(typing, files, acc.listed.ids, u, p, m);
                assert(acc.listed.ids.contains_key(m));
                assert(types_node(typing, files, after.listed.ids, u, p, m));
            } else {
                assert(types_node(typing, files, after.listed.ids, u, place, n));
            }
        }
    }
}

proof fn lemma_typed_symbols(
    typing: TypingView,
    files: Seq<FileFacts>,
    at: int,
    symbols: Seq<SymbolFact>,
    i: int,
    acc: FoundTypesView,
    place: SpanKey,
    n: u32,
)
    requires
        typing_ok(typing),
        0 <= at < files.len(),
        symbols == file_symbols(files[at]),
        numbers_ok(files, typing.types.len()),
        found_ok(typing, files, acc),
        0 <= i,
    ensures
        ({
            let after = typed_symbols_from(typing, symbols, i, acc);
            &&& found_ok(typing, files, after)
            &&& found_more(after, acc)
            &&& (exists|k: int| i <= k < symbols.len() && #[trigger] types_symbol(symbols[k], place, n))
                ==> is_found(typing, after, place, n)
        }),
    decreases symbols.len() - i,
{
    if i < symbols.len() {
        let symbol = symbols[i];
        match symbol.type_number {
            Some(number) => {
                let file = symbol.id.file;
                let body = SpanKey {
                    file,
                    start: symbol.body_span.start,
                    end: symbol.body_span.end,
                };
                let name = SpanKey {
                    file,
                    start: symbol.name_span.start,
                    end: symbol.name_span.end,
                };
                assert(symbols.contains(symbol));
                symbols_lie_at_paths(files[at], symbol);
                assert(file_numbers_ok(files[at], typing.types.len()));
                assert(number < typing.types.len());
                assert(declares(files[at], symbol) && types_symbol(symbol, body, number));
                assert(declares(files[at], symbol) && types_symbol(symbol, name, number));
                assert(is_typed_at(files[at], body, number));
                assert(is_typed_at(files[at], name, number));
                let first = with_typed(typing, file, symbol.body_span, number, acc);
                let next = with_typed(typing, file, symbol.name_span, number, first);
                lemma_typed(typing, files, body, number, acc);
                lemma_typed(typing, files, name, number, first);
                lemma_more_and_more(acc, first, next);
                lemma_found_stays(typing, next, first, body, number);
                lemma_typed_symbols(typing, files, at, symbols, i + 1, next, place, n);
                let after = typed_symbols_from(typing, symbols, i, acc);
                lemma_more_and_more(acc, next, after);
                lemma_found_stays(typing, after, next, body, number);
                lemma_found_stays(typing, after, next, name, number);
                if types_symbol(symbol, place, n) {
                    assert(place == body || place == name);
                }
            },
            None => {
                lemma_typed_symbols(typing, files, at, symbols, i + 1, acc, place, n);
            },
        }
        if exists|k: int| i <= k < symbols.len() && #[trigger] types_symbol(symbols[k], place, n) {
            let k = choose|k: int|
                i <= k < symbols.len() && #[trigger] types_symbol(symbols[k], place, n);
            if k > i {
                assert(i + 1 <= k < symbols.len() && types_symbol(symbols[k], place, n));
            }
        }
    }
}

proof fn lemma_typed_files(
    typing: TypingView,
    files: Seq<FileFacts>,
    i: int,
    acc: FoundTypesView,
    place: SpanKey,
    n: u32,
    at: int,
    s: SymbolFact,
)
    requires
        typing_ok(typing),
        numbers_ok(files, typing.types.len()),
        found_ok(typing, files, acc),
        0 <= i,
    ensures
        ({
            let after = typed_files_from(typing, files, i, acc);
            &&& found_ok(typing, files, after)
            &&& found_more(after, acc)
            &&& i <= at < files.len() && declares(files[at], s) && types_symbol(s, place, n)
                ==> is_found(typing, after, place, n)
        }),
    decreases files.len() - i,
{
    if i < files.len() {
        let symbols = file_symbols(files[i]);
        let next = typed_symbols_from(typing, symbols, 0, acc);
        lemma_typed_symbols(typing, files, i, symbols, 0, acc, place, n);
        lemma_typed_files(typing, files, i + 1, next, place, n, at, s);
        let after = typed_files_from(typing, files, i, acc);
        lemma_more_and_more(acc, next, after);
        if i == at && declares(files[at], s) && types_symbol(s, place, n) {
            symbols_lie_at_paths(files[at], s);
            let k = choose|k: int| 0 <= k < symbols.len() && symbols[k] == s;
            assert(types_symbol(symbols[k], place, n));
            lemma_found_stays(typing, after, next, place, n);
        }
    }
}

/// Slots in order are the slots of all positions.
proof fn lemma_slots(slots: Seq<Slot>)
    requires
        slots.len() <= usize::MAX,
        forall|i: int| 0 <= i < slots.len() ==> (#[trigger] slots[i]).index == i as usize,
    ensures
        forall|i: int|
            0 <= i < stable_sorted::<Slot>(slots).len() ==> (#[trigger] stable_sorted::<Slot>(
                slots,
            )[i]).index < slots.len(),
        forall|k: int|
            0 <= k < slots.len() ==> #[trigger] has_slot(stable_sorted::<Slot>(slots), k),
{
    let sorted = stable_sorted::<Slot>(slots);
    sorting_keeps_items::<Slot>(slots);
    assert forall|i: int| 0 <= i < sorted.len() implies (#[trigger] sorted[i]).index
        < slots.len() by {
        assert(sorted.contains(sorted[i]));
        assert(slots.contains(sorted[i]));
        let j = choose|j: int| 0 <= j < slots.len() && slots[j] == sorted[i];
        assert(slots[j].index == j as usize);
    }
    assert forall|k: int| 0 <= k < slots.len() implies #[trigger] has_slot(sorted, k) by {
        assert(slots.contains(slots[k]));
        assert(sorted.contains(slots[k]));
        let i = choose|i: int| 0 <= i < sorted.len() && sorted[i] == slots[k];
        assert(sorted[i].index == k);
    }
}

/// Slots hold a position.
spec fn has_slot(slots: Seq<Slot>, k: int) -> bool {
    exists|i: int| 0 <= i < slots.len() && (#[trigger] slots[i]).index == k
}

proof fn lemma_typed_expressions(
    typing: TypingView,
    files: Seq<FileFacts>,
    at: int,
    b: int,
    order: Seq<Slot>,
    i: int,
    acc: FoundTypesView,
    place: SpanKey,
    n: u32,
)
    requires
        typing_ok(typing),
        numbers_ok(files, typing.types.len()),
        found_ok(typing, files, acc),
        0 <= at < files.len(),
        0 <= b < files[at].bodies@.len(),
        forall|k: int|
            0 <= k < order.len() ==> (#[trigger] order[k]).index
                < files[at].bodies@[b].expressions@.len(),
        0 <= i,
    ensures
        ({
            let after = typed_expressions_from(
                typing,
                files[at].id,
                files[at].bodies@[b].expressions@,
                order,
                i,
                acc,
            );
            &&& found_ok(typing, files, after)
            &&& found_more(after, acc)
            &&& (exists|k: int|
                i <= k < order.len() && types_expression(
                    files[at],
                    place,
                    n,
                    b,
                    (#[trigger] order[k]).index as int,
                )) ==> is_found(typing, after, place, n)
        }),
    decreases order.len() - i,
{
    if i < order.len() {
        let file = files[at];
        let expressions = file.bodies@[b].expressions@;
        let e = order[i].index as int;
        let expression = expressions[e];
        let here = SpanKey {
            file: file.id,
            start: expression.span.start,
            end: expression.span.end,
        };
        assert(file_numbers_ok(file, typing.types.len()));
        assert(body_numbers_ok(file.bodies@[b], typing.types.len()));
        assert(types_expression(file, here, expression.type_number, b, e));
        assert(is_typed_at(files[at], here, expression.type_number));
        let next = with_typed(typing, file.id, expression.span, expression.type_number, acc);
        lemma_typed(typing, files, here, expression.type_number, acc);
        lemma_typed_expressions(typing, files, at, b, order, i + 1, next, place, n);
        let after = typed_expressions_from(typing, file.id, expressions, order, i, acc);
        lemma_more_and_more(acc, next, after);
        lemma_found_stays(typing, after, next, here, expression.type_number);
        if exists|k: int|
            i <= k < order.len() && types_expression(
                file,
                place,
                n,
                b,
                (#[trigger] order[k]).index as int,
            ) {
            let k = choose|k: int|
                i <= k < order.len() && types_expression(
                    file,
                    place,
                    n,
                    b,
                    (#[trigger] order[k]).index as int,
                );
            if k > i {
                assert(i + 1 <= k < order.len() && types_expression(
                    file,
                    place,
                    n,
                    b,
                    order[k].index as int,
                ));
            } else {
                assert(here == place);
            }
        }
    }
}

proof fn lemma_typed_bodies(
    typing: TypingView,
    files: Seq<FileFacts>,
    at: int,
    order: Seq<Slot>,
    i: int,
    acc: FoundTypesView,
    place: SpanKey,
    n: u32,
    b: int,
    e: int,
)
    requires
        typing_ok(typing),
        numbers_ok(files, typing.types.len()),
        found_ok(typing, files, acc),
        0 <= at < files.len(),
        forall|k: int|
            0 <= k < order.len() ==> (#[trigger] order[k]).index < files[at].bodies@.len(),
        0 <= i,
    ensures
        ({
            let after = typed_bodies_from(
                typing,
                files[at].id,
                files[at].bodies@,
                order,
                i,
                acc,
            );
            &&& found_ok(typing, files, after)
            &&& found_more(after, acc)
            &&& types_expression(files[at], place, n, b, e) && (exists|k: int|
                i <= k < order.len() && (#[trigger] order[k]).index == b) ==> is_found(
                typing,
                after,
                place,
                n,
            )
        }),
    decreases order.len() - i,
{
    if i < order.len() {
        let file = files[at];
        let body = order[i].index as int;
        let expressions = file.bodies@[body].expressions@;
        let inner = expression_order(expressions);
        assert(file.bodies@[body].expressions.len() == expressions.len());
        lemma_slots(
            Seq::new(
                expressions.len(),
                |i: int|
                    Slot {
                        key: (expressions[i].span.start * 0x1_0000_0000 + expressions[i].span.end)
                            as u64,
                        index: i as usize,
                    },
            ),
        );
        let next = typed_expressions_from(typing, file.id, expressions, inner, 0, acc);
        lemma_typed_expressions(typing, files, at, body, inner, 0, acc, place, n);
        lemma_typed_bodies(typing, files, at, order, i + 1, next, place, n, b, e);
        let after = typed_bodies_from(typing, file.id, file.bodies@, order, i, acc);
        lemma_more_and_more(acc, next, after);
        if types_expression(file, place, n, b, e) && (exists|k: int|
            i <= k < order.len() && (#[trigger] order[k]).index == b) {
            let k = choose|k: int| i <= k < order.len() && (#[trigger] order[k]).index == b;
            if k > i {
                assert(i + 1 <= k < order.len() && order[k].index == b);
            } else {
                assert(has_slot(inner, e));
                let m = choose|m: int| 0 <= m < inner.len() && (#[trigger] inner[m]).index == e;
                assert(types_expression(file, place, n, b, inner[m].index as int));
                lemma_found_stays(typing, after, next, place, n);
            }
        }
    }
}

proof fn lemma_typed_all(
    typing: TypingView,
    files: Seq<FileFacts>,
    i: int,
    acc: FoundTypesView,
    place: SpanKey,
    n: u32,
    at: int,
    b: int,
    e: int,
)
    requires
        typing_ok(typing),
        numbers_ok(files, typing.types.len()),
        found_ok(typing, files, acc),
        0 <= i,
    ensures
        ({
            let after = typed_all_from(typing, files, i, acc);
            &&& found_ok(typing, files, after)
            &&& found_more(after, acc)
            &&& i <= at < files.len() && types_expression(files[at], place, n, b, e) ==> is_found(
                typing,
                after,
                place,
                n,
            )
        }),
    decreases files.len() - i,
{
    if i < files.len() {
        let bodies = files[i].bodies@;
        let order = body_order(bodies);
        assert(files[i].bodies.len() == bodies.len());
        lemma_slots(
            Seq::new(
                bodies.len(),
                |i: int|
                    Slot {
                        key: first_start_from(bodies[i].expressions@, 0, 0),
                        index: i as usize,
                    },
            ),
        );
        let next = typed_bodies_from(typing, files[i].id, bodies, order, 0, acc);
        lemma_typed_bodies(typing, files, i, order, 0, acc, place, n, b, e);
        lemma_typed_all(typing, files, i + 1, next, place, n, at, b, e);
        let after = typed_all_from(typing, files, i, acc);
        lemma_more_and_more(acc, next, after);
        if i == at && types_expression(files[at], place, n, b, e) {
            assert(has_slot(order, b));
            lemma_found_stays(typing, after, next, place, n);
        }
    }
}

/// A snapshot has a type that is listed as what is known of a type.
pub open spec fn shows_type(
    shown: Seq<TypeInfoView>,
    types: Seq<TypeFact>,
    symbols: Map<SymbolRef, Seq<char>>,
    ids: Map<u32, Seq<char>>,
    n: u32,
) -> bool {
    exists|i: int|
        0 <= i < shown.len() && n < types.len() && ids.contains_key(n) && (
        #[trigger] shown[i]).id == ids[n] && describes(shown[i], types[n as int], ids, symbols)
}

/// Types are shown as what is known of them, each type with an id once under its id.
pub open spec fn types_hold(
    shown: Seq<TypeInfoView>,
    types: Seq<TypeFact>,
    symbols: Map<SymbolRef, Seq<char>>,
    ids: Map<u32, Seq<char>>,
) -> bool {
    &&& ids_differ(ids)
    &&& forall|i: int|
        0 <= i < shown.len() ==> #[trigger] shown_is_known(shown[i], types, symbols, ids)
    &&& forall|n: u32| #[trigger]
        ids.contains_key(n) ==> shows_type(shown, types, symbols, ids, n)
}

/// A shown type is what is known of a type.
pub open spec fn shown_is_known(
    info: TypeInfoView,
    types: Seq<TypeFact>,
    symbols: Map<SymbolRef, Seq<char>>,
    ids: Map<u32, Seq<char>>,
) -> bool {
    exists|n: u32|
        n < types.len() && #[trigger] ids.contains_key(n) && info.id == ids[n] && describes(
            info,
            types[n as int],
            ids,
            symbols,
        )
}

/// Nodes have the types of what stands at their places: each node at whose place something of a
/// type stands has a type, and no node has another type.
pub open spec fn node_types_hold(
    list: Seq<NodeTypeView>,
    files: Seq<FileFacts>,
    places: Map<SpanKey, Seq<char>>,
    ids: Map<u32, Seq<char>>,
) -> bool {
    &&& forall|t: NodeTypeView| #[trigger]
        list.contains(t) ==> exists|place: SpanKey, n: u32|
            #![trigger is_typed(files, place, n)]
            is_typed(files, place, n) && places.contains_key(place) && places[place] == t.node_id
                && ids.contains_key(n) && ids[n] == t.type_id
    &&& forall|place: SpanKey, n: u32| #[trigger]
        is_typed(files, place, n) && places.contains_key(place) ==> has_node_type(
            list,
            places[place],
        )
}

proof fn lemma_types_hold(
    listed: ListedView,
    types: Seq<TypeFact>,
    symbols: Map<SymbolRef, Seq<char>>,
)
    requires
        list_is_true(listed, types, symbols, Set::empty()),
    ensures
        types_hold(listed.types, types, symbols, listed.ids),
{
    let ids = listed.ids;
    let shown = listed.types;
    assert forall|i: int| 0 <= i < shown.len() implies #[trigger] shown_is_known(
        shown[i],
        types,
        symbols,
        ids,
    ) by {
        assert(is_true_at(listed, types, symbols, i));
        let n = choose|n: u32| lists_type(listed, types, symbols, n, i);
        assert(ids.contains_key(n));
    }
    assert forall|n: u32| #[trigger] ids.contains_key(n) implies shows_type(
        shown,
        types,
        symbols,
        ids,
        n,
    ) by {
        assert(has_type(listed, types, symbols, n));
        let i = choose|i: int| lists_type(listed, types, symbols, n, i);
        assert(shown[i].id == ids[n]);
    }
}

proof fn lemma_node_types_hold(facts: ProjectFacts, typing: TypingView, found: FoundTypesView)
    requires
        nodes_are_true(typing, files_in_order(facts), found),
        forall|place: SpanKey, n: u32| #[trigger]
            is_typed(files_in_order(facts), place, n) && typing.places.contains_key(place)
                ==> has_node_type(found.node_types, typing.places[place]),
    ensures
        node_types_hold(found.node_types, facts.files@, typing.places, found.listed.ids),
{
    let files = files_in_order(facts);
    let ids = found.listed.ids;
    let places = typing.places;
    assert forall|t: NodeTypeView| #[trigger] found.node_types.contains(t) implies exists|
        place: SpanKey,
        n: u32,
    |
        #![trigger is_typed(facts.files@, place, n)]
        is_typed(facts.files@, place, n) && places.contains_key(place) && places[place]
            == t.node_id && ids.contains_key(n) && ids[n] == t.type_id by {
        let (place, n) = choose|place: SpanKey, n: u32|
            types_node(typing, files, ids, t, place, n);
        lemma_typed_in_order(facts, place, n);
        assert(is_typed(facts.files@, place, n));
    }
    assert forall|place: SpanKey, n: u32| #[trigger] is_typed(facts.files@, place, n)
        && places.contains_key(place) implies has_node_type(
        found.node_types,
        places[place],
    ) by {
        lemma_typed_in_order(facts, place, n);
        assert(is_typed(files, place, n));
    }
}

/// A snapshot lists types as what is known of them: a listed type has the text, the kind, the
/// declaration and the parts of a type of the project, and different types have different ids.
/// A node has the type of what stands at its place, and every node with such a type has it.
pub proof fn listed_types_are_true(facts: ProjectFacts)
    ensures
        built(facts) matches Ok(snapshot) ==> exists|ids: Map<u32, Seq<char>>| #[trigger]
            types_hold(
                snapshot.types,
                facts.types@,
                names_of(files_in_order(facts), facts.types@).symbol_ids,
                ids,
            ) && node_types_hold(
                snapshot.node_types,
                facts.files@,
                project_forest(files_in_order(facts)).places,
                ids,
            ),
{
    let files = files_in_order(facts);
    let typing = TypingView {
        types: facts.types@,
        ids: names_of(files, facts.types@).symbol_ids,
        places: project_forest(files).places,
    };
    let found = project_types(typing, files);
    if built(facts) is Ok {
        let snapshot = built(facts)->Ok_0;
        lemma_project_types(typing, files);
        lemma_types_hold(found.listed, typing.types, typing.ids);
        lemma_node_types_hold(facts, typing, found);
        assert(snapshot.types == found.listed.types);
        assert(snapshot.node_types == found.node_types);
        assert(types_hold(snapshot.types, facts.types@, typing.ids, found.listed.ids));
    }
}

/// A node has a type.
pub open spec fn has_node_type(list: Seq<NodeTypeView>, node: Seq<char>) -> bool {
    exists|i: int| 0 <= i < list.len() && (#[trigger] list[i]).node_id == node
}

proof fn lemma_typed_in_order(facts: ProjectFacts, place: SpanKey, n: u32)
    ensures
        is_typed(facts.files@, place, n) <==> is_typed(files_in_order(facts), place, n),
{
    let files = files_in_order(facts);
    if is_typed(facts.files@, place, n) {
        let i = choose|i: int|
            0 <= i < facts.files@.len() && #[trigger] is_typed_at(facts.files@[i], place, n);
        let at = lemma_file_in_order(facts, i);
        assert(is_typed_at(files[at], place, n));
    }
    if is_typed(files, place, n) {
        let at = choose|at: int|
            0 <= at < files.len() && #[trigger] is_typed_at(files[at], place, n);
        let i = lemma_file_given(facts, at);
        assert(is_typed_at(facts.files@[i], place, n));
    }
}

proof fn lemma_project_types(typing: TypingView, files: Seq<FileFacts>)
    requires
        typing_ok(typing),
        numbers_ok(files, typing.types.len()),
    ensures
        list_is_true(project_types(typing, files).listed, typing.types, typing.ids, Set::empty()),
        nodes_are_true(typing, files, project_types(typing, files)),
        forall|place: SpanKey, n: u32| #[trigger]
            is_typed(files, place, n) && typing.places.contains_key(place) ==> has_node_type(
                project_types(typing, files).node_types,
                typing.places[place],
            ),
{
    let start = FoundTypesView {
        listed: ListedView { ids: Map::empty(), types: Seq::empty() },
        node_types: Seq::empty(),
    };
    let first = typed_files_from(typing, files, 0, start);
    let found = typed_all_from(typing, files, 0, first);
    let sorted = stable_sorted::<NodeType>(found.node_types);
    let kept = deduped::<NodeType>(sorted);
    let any = SpanKey { file: 0, start: 0, end: 0 };
    let none: SymbolFact = arbitrary();
    lemma_typed_files(typing, files, 0, start, any, 0, -1, none);
    lemma_typed_all(typing, files, 0, first, any, 0, -1, 0, 0);
    sorting_keeps_items::<NodeType>(found.node_types);
    assert forall|t: NodeTypeView| #[trigger] kept.contains(t) implies exists|
        place: SpanKey,
        n: u32,
    | types_node(typing, files, found.listed.ids, t, place, n) by {
        dropping_repeats_adds_nothing::<NodeType>(sorted, t);
        assert(found.node_types.contains(t));
    }
    assert forall|place: SpanKey, n: u32| #[trigger] is_typed(files, place, n)
        && typing.places.contains_key(place) implies has_node_type(
        kept,
        typing.places[place],
    ) by {
        let at = choose|at: int|
            0 <= at < files.len() && #[trigger] is_typed_at(files[at], place, n);
        if exists|b: int, e: int| #[trigger] types_expression(files[at], place, n, b, e) {
            let (b, e) = choose|b: int, e: int| #[trigger]
                types_expression(files[at], place, n, b, e);
            lemma_typed_all(typing, files, 0, first, place, n, at, b, e);
        } else {
            let s = choose|s: SymbolFact| #[trigger]
                declares(files[at], s) && types_symbol(s, place, n);
            lemma_typed_files(typing, files, 0, start, place, n, at, s);
            lemma_found_stays(typing, found, first, place, n);
        }
        let t = NodeTypeView { node_id: typing.places[place], type_id: found.listed.ids[n] };
        assert(found.node_types.contains(t));
        assert(sorted.contains(t));
        lemma_one_is_kept::<NodeType>(sorted, t);
        let y = choose|y: NodeTypeView|
            #![trigger kept.contains(y)]
            kept.contains(y) && (y == t || NodeType::repeats(y, t));
        let i = choose|i: int| 0 <= i < kept.len() && kept[i] == y;
        assert(kept[i].node_id == typing.places[place]);
    }
}

} // verus!
