//! Laws of what names stand for in the files of a project.
use crate::definitions::{defined_from, defined_in, is_picked, picked_from, picked_symbols, Pick};
use crate::facts::{
    file_symbols, ExpressionFact, FileFacts, LocalFact, SymbolFact, SymbolKind, TypeData, TypeFact,
    UseFact,
};
use crate::ids::{LocalRef, Resolved, SpanKey, SymbolRef};
use crate::inspect::names_of;
use crate::known::{declares, defines, symbols_lie_at_paths};
use crate::node_types::{collection_number, kinds_from, kinds_of_bodies, kinds_of_expressions};
use crate::program::entry;
use crate::references::{all_uses, by_place_from, resolved_by_place, UseKey, UseKeyView, UseValue};
use crate::scope::CollectionKind;
use crate::tables::{ascending, lemma_ascending};
use crate::uses::{is_use, uses_are_found};
use vstd::prelude::*;

verus! {

/// A symbol is one of those that are picked.
pub open spec fn fits_pick(pick: Pick, file: FileFacts, s: SymbolFact) -> bool {
    match pick {
        Pick::Callable => s.kind is Function || s.kind is Method || s.kind is GetMethod,
        Pick::InstanceMethod => s.kind matches SymbolKind::Method { instance } && instance,
        Pick::Library => file.source_kind is Stdlib,
    }
}

proof fn lemma_picked_symbols(
    pick: Pick,
    file: FileFacts,
    symbols: Seq<SymbolFact>,
    i: int,
    acc: Set<SymbolRef>,
    x: SymbolRef,
)
    requires
        0 <= i,
    ensures
        picked_symbols(pick, file, symbols, i, acc).contains(x) <==> acc.contains(x) || exists|
            k: int,
        | i <= k < symbols.len() && (#[trigger] symbols[k]).id == x && fits_pick(
            pick,
            file,
            symbols[k],
        ),
    decreases symbols.len() - i,
{
    if i < symbols.len() {
        let next = if is_picked(pick, file, symbols[i]) {
            acc.insert(symbols[i].id)
        } else {
            acc
        };
        assert(is_picked(pick, file, symbols[i]) == fits_pick(pick, file, symbols[i]));
        lemma_picked_symbols(pick, file, symbols, i + 1, next, x);
        if exists|k: int|
            i <= k < symbols.len() && (#[trigger] symbols[k]).id == x && fits_pick(
                pick,
                file,
                symbols[k],
            ) {
            let k = choose|k: int|
                i <= k < symbols.len() && (#[trigger] symbols[k]).id == x && fits_pick(
                    pick,
                    file,
                    symbols[k],
                );
            if k > i {
                assert(i + 1 <= k < symbols.len() && symbols[k].id == x);
            }
        }
    }
}

proof fn lemma_picked(pick: Pick, files: Seq<FileFacts>, i: int, acc: Set<SymbolRef>, x: SymbolRef)
    requires
        0 <= i,
    ensures
        picked_from(pick, files, i, acc).contains(x) <==> acc.contains(x) || exists|
            k: int,
            s: SymbolFact,
        |
            i <= k < files.len() && #[trigger] declares(files[k], s) && s.id == x && fits_pick(
                pick,
                files[k],
                s,
            ),
    decreases files.len() - i,
{
    if i < files.len() {
        let symbols = file_symbols(files[i]);
        let next = picked_symbols(pick, files[i], symbols, 0, acc);
        lemma_picked_symbols(pick, files[i], symbols, 0, acc, x);
        lemma_picked(pick, files, i + 1, next, x);
        if next.contains(x) && !acc.contains(x) {
            let k = choose|k: int|
                0 <= k < symbols.len() && (#[trigger] symbols[k]).id == x && fits_pick(
                    pick,
                    files[i],
                    symbols[k],
                );
            assert(symbols.contains(symbols[k]));
            symbols_lie_at_paths(files[i], symbols[k]);
            assert(declares(files[i], symbols[k]));
        }
        if exists|k: int, s: SymbolFact|
            i <= k < files.len() && #[trigger] declares(files[k], s) && s.id == x && fits_pick(
                pick,
                files[k],
                s,
            ) {
            let (k, s) = choose|k: int, s: SymbolFact|
                i <= k < files.len() && #[trigger] declares(files[k], s) && s.id == x && fits_pick(
                    pick,
                    files[k],
                    s,
                );
            if k > i {
                assert(i + 1 <= k < files.len() && declares(files[k], s));
            } else {
                symbols_lie_at_paths(files[i], s);
                let j = choose|j: int| 0 <= j < symbols.len() && symbols[j] == s;
                assert(symbols[j].id == x && fits_pick(pick, files[i], symbols[j]));
            }
        }
    }
}

/// What can be called are the functions, methods and get-methods that are declared; what takes a
/// receiver are the methods of instances; and the library is what its files declare.
pub proof fn callables_are_declared(files: Seq<FileFacts>, types: Seq<TypeFact>, x: SymbolRef)
    ensures
        names_of(files, types).callables.contains(x) <==> exists|k: int, s: SymbolFact|
            0 <= k < files.len() && #[trigger] declares(files[k], s) && s.id == x && (
            s.kind is Function || s.kind is Method || s.kind is GetMethod),
        names_of(files, types).instance_methods.contains(x) <==> exists|k: int, s: SymbolFact|
            0 <= k < files.len() && #[trigger] declares(files[k], s) && s.id == x && (
            s.kind matches SymbolKind::Method { instance } && instance),
        names_of(files, types).library.contains(x) <==> exists|k: int, s: SymbolFact|
            0 <= k < files.len() && #[trigger] declares(files[k], s) && s.id == x
                && files[k].source_kind is Stdlib,
{
    lemma_picked(Pick::Callable, files, 0, Set::empty(), x);
    lemma_picked(Pick::InstanceMethod, files, 0, Set::empty(), x);
    lemma_picked(Pick::Library, files, 0, Set::empty(), x);
}

proof fn lemma_by_place(
    uses: Map<UseKeyView, UseValue>,
    keys: Seq<UseKeyView>,
    i: int,
    acc: Map<SpanKey, Resolved>,
    place: SpanKey,
    ok: spec_fn(Resolved) -> bool,
)
    requires
        0 <= i,
        acc.contains_key(place) ==> ok(acc[place]),
        forall|k: int|
            i <= k < keys.len() && (#[trigger] keys[k]).place == place ==> ok(
                uses[keys[k]].resolved,
            ),
    ensures
        by_place_from(uses, keys, i, acc).contains_key(place) <==> acc.contains_key(place)
            || exists|k: int| i <= k < keys.len() && (#[trigger] keys[k]).place == place,
        by_place_from(uses, keys, i, acc).contains_key(place) ==> ok(
            by_place_from(uses, keys, i, acc)[place],
        ),
    decreases keys.len() - i,
{
    if i < keys.len() {
        let next = acc.insert(keys[i].place, uses[keys[i]].resolved);
        lemma_by_place(uses, keys, i + 1, next, place, ok);
        if exists|k: int| i <= k < keys.len() && (#[trigger] keys[k]).place == place {
            let k = choose|k: int| i <= k < keys.len() && (#[trigger] keys[k]).place == place;
            if k > i {
                assert(i + 1 <= k < keys.len() && keys[k].place == place);
            }
        }
    }
}

/// The name at a place stands for what the uses at the place were found to stand for: where they
/// all agree, for that.
pub proof fn places_stand_for_their_uses(
    files: Seq<FileFacts>,
    types: Seq<TypeFact>,
    place: SpanKey,
    target: Resolved,
)
    ensures
        names_of(files, types).resolved.contains_key(place) <==> exists|
            u: UseFact,
            key: UseKeyView,
        | #[trigger] is_use(files, u, key) && key.place == place,
        names_of(files, types).resolved.contains_key(place) && (forall|
            u: UseFact,
            key: UseKeyView,
        | #[trigger] is_use(files, u, key) && key.place == place ==> u.resolved == target)
            ==> names_of(files, types).resolved[place] == target,
{
    let uses = all_uses(files);
    let keys = ascending::<UseKey>(uses.dom());
    uses_are_found(files, arbitrary());
    lemma_ascending::<UseKey>(uses.dom());
    lemma_by_place(uses, keys, 0, Map::empty(), place, |r: Resolved| true);
    let table = resolved_by_place(uses);
    if table.contains_key(place) {
        let k = choose|k: int| 0 <= k < keys.len() && (#[trigger] keys[k]).place == place;
        assert(keys.to_set().contains(keys[k]));
        uses_are_found(files, keys[k]);
        let u = choose|u: UseFact| #[trigger] is_use(files, u, keys[k]);
        assert(is_use(files, u, keys[k]) && keys[k].place == place);
    }
    if exists|u: UseFact, key: UseKeyView| #[trigger] is_use(files, u, key) && key.place == place {
        let (u, key) = choose|u: UseFact, key: UseKeyView| #[trigger]
            is_use(files, u, key) && key.place == place;
        uses_are_found(files, key);
        assert(keys.to_set().contains(key));
        let k = choose|k: int| 0 <= k < keys.len() && keys[k] == key;
        assert(keys[k].place == place);
    }
    if forall|u: UseFact, key: UseKeyView| #[trigger]
        is_use(files, u, key) && key.place == place ==> u.resolved == target {
        let same = |r: Resolved| r == target;
        assert forall|k: int| 0 <= k < keys.len() && (#[trigger] keys[k]).place == place implies same(
            uses[keys[k]].resolved,
        ) by {
            assert(keys.to_set().contains(keys[k]));
            uses_are_found(files, keys[k]);
            let u = choose|u: UseFact| #[trigger]
                is_use(files, u, keys[k]) && uses[keys[k]].kind == u.kind
                    && uses[keys[k]].resolved == u.resolved;
            assert(is_use(files, u, keys[k]));
        }
        lemma_by_place(uses, keys, 0, Map::empty(), place, same);
    }
}

/// What a type is a collection as, behind its aliases: arrays, maps and lists are.
pub open spec fn collects_as(types: Seq<TypeFact>, n: u32, kind: Option<CollectionKind>) -> bool {
    if n < types.len() && types[n as int].unaliased < types.len() {
        match types[types[n as int].unaliased as int].data {
            TypeData::Array(_) => kind == Some(CollectionKind::Array),
            TypeData::Mapping { .. } => kind == Some(CollectionKind::Mapping),
            TypeData::Struct { name, .. } => {
                &&& name@ == "map"@ ==> kind == Some(CollectionKind::Mapping)
                &&& name@ == "lisp_list"@ ==> kind == Some(CollectionKind::List)
                &&& name@ != "map"@ && name@ != "lisp_list"@ ==> kind is None
            },
            _ => kind is None,
        }
    } else {
        kind is None
    }
}

/// Arrays, maps and lists are collections, behind all aliases, and nothing else is.
pub proof fn collections_go_by_type(types: Seq<TypeFact>, n: u32)
    ensures
        collects_as(types, n, collection_number(types, n)),
{
    reveal_strlit("map");
    reveal_strlit("lisp_list");
    assert("map"@.len() != "lisp_list"@.len());
}

spec fn kind_given(
    types: Seq<TypeFact>,
    file: u32,
    e: ExpressionFact,
    place: SpanKey,
    kind: CollectionKind,
) -> bool {
    place == (SpanKey { file, start: e.span.start, end: e.span.end }) && collection_number(
        types,
        e.type_number,
    ) == Some(kind)
}

/// An expression of a file at a place is a collection.
pub open spec fn is_collection_at(
    types: Seq<TypeFact>,
    file: FileFacts,
    place: SpanKey,
    kind: CollectionKind,
) -> bool {
    exists|b: int, e: int|
        0 <= b < file.bodies@.len() && 0 <= e < file.bodies@[b].expressions@.len() && place == (
        SpanKey {
            file: file.id,
            start: (#[trigger] file.bodies@[b].expressions@[e]).span.start,
            end: file.bodies@[b].expressions@[e].span.end,
        }) && collects_as(types, file.bodies@[b].expressions@[e].type_number, Some(kind))
}

proof fn lemma_kinds_of(
    types: Seq<TypeFact>,
    file: u32,
    expressions: Seq<ExpressionFact>,
    i: int,
    acc: Map<SpanKey, CollectionKind>,
    place: SpanKey,
    ok: spec_fn(CollectionKind) -> bool,
)
    requires
        0 <= i,
        acc.contains_key(place) ==> ok(acc[place]),
        forall|k: int, kind: CollectionKind|
            0 <= k < expressions.len() && #[trigger] kind_given(
                types,
                file,
                expressions[k],
                place,
                kind,
            ) ==> ok(kind),
    ensures
        ({
            let after = kinds_of_expressions(types, file, expressions, i, acc);
            &&& acc.contains_key(place) ==> after.contains_key(place)
            &&& after.contains_key(place) ==> ok(after[place])
            &&& forall|k: int, kind: CollectionKind|
                i <= k < expressions.len() && #[trigger] kind_given(
                    types,
                    file,
                    expressions[k],
                    place,
                    kind,
                ) ==> after.contains_key(place)
        }),
    decreases expressions.len() - i,
{
    if i < expressions.len() {
        let span = expressions[i].span;
        let next = match collection_number(types, expressions[i].type_number) {
            Some(kind) => acc.insert(
                SpanKey { file, start: span.start, end: span.end },
                kind,
            ),
            None => acc,
        };
        if next.contains_key(place) {
            match collection_number(types, expressions[i].type_number) {
                Some(kind) => {
                    if place == (SpanKey { file, start: span.start, end: span.end }) {
                        assert(kind_given(types, file, expressions[i], place, kind));
                    }
                },
                None => {},
            }
        }
        lemma_kinds_of(types, file, expressions, i + 1, next, place, ok);
    }
}

proof fn lemma_kinds_of_bodies(
    types: Seq<TypeFact>,
    files: Seq<FileFacts>,
    at: int,
    i: int,
    acc: Map<SpanKey, CollectionKind>,
    place: SpanKey,
    ok: spec_fn(CollectionKind) -> bool,
)
    requires
        0 <= i,
        0 <= at < files.len(),
        acc.contains_key(place) ==> ok(acc[place]),
        forall|kind: CollectionKind| #[trigger]
            is_collection_at(types, files[at], place, kind) ==> ok(kind),
    ensures
        ({
            let after = kinds_of_bodies(types, files[at].id, files[at].bodies@, i, acc);
            &&& acc.contains_key(place) ==> after.contains_key(place)
            &&& after.contains_key(place) ==> ok(after[place])
            &&& forall|b: int, e: int|
                i <= b < files[at].bodies@.len() && 0 <= e
                    < files[at].bodies@[b].expressions@.len() && place == (SpanKey {
                    file: files[at].id,
                    start: (#[trigger] files[at].bodies@[b].expressions@[e]).span.start,
                    end: files[at].bodies@[b].expressions@[e].span.end,
                }) && collection_number(
                    types,
                    files[at].bodies@[b].expressions@[e].type_number,
                ) is Some ==> after.contains_key(place)
        }),
    decreases files[at].bodies@.len() - i,
{
    let file = files[at];
    if i < file.bodies@.len() {
        let expressions = file.bodies@[i].expressions@;
        assert forall|k: int, kind: CollectionKind|
            0 <= k < expressions.len() && #[trigger] kind_given(
                types,
                file.id,
                expressions[k],
                place,
                kind,
            ) implies ok(kind) by {
            collections_go_by_type(types, expressions[k].type_number);
            assert(file.bodies@[i].expressions@[k] == expressions[k]);
            assert(is_collection_at(types, files[at], place, kind));
        }
        lemma_kinds_of(types, file.id, expressions, 0, acc, place, ok);
        let next = kinds_of_expressions(types, file.id, expressions, 0, acc);
        lemma_kinds_of_bodies(types, files, at, i + 1, next, place, ok);
        let after = kinds_of_bodies(types, file.id, file.bodies@, i, acc);
        assert forall|b: int, e: int|
            i <= b < files[at].bodies@.len() && 0 <= e < files[at].bodies@[b].expressions@.len()
                && place == (SpanKey {
                file: files[at].id,
                start: (#[trigger] files[at].bodies@[b].expressions@[e]).span.start,
                end: files[at].bodies@[b].expressions@[e].span.end,
            }) && collection_number(
                types,
                files[at].bodies@[b].expressions@[e].type_number,
            ) is Some implies after.contains_key(place) by {
            if b == i {
                let kind = collection_number(types, expressions[e].type_number)->Some_0;
                assert(kind_given(types, file.id, expressions[e], place, kind));
            }
        }
    }
}

proof fn lemma_kinds(
    types: Seq<TypeFact>,
    files: Seq<FileFacts>,
    i: int,
    acc: Map<SpanKey, CollectionKind>,
    place: SpanKey,
    ok: spec_fn(CollectionKind) -> bool,
)
    requires
        0 <= i,
        acc.contains_key(place) ==> ok(acc[place]),
        forall|at: int, kind: CollectionKind|
            0 <= at < files.len() && #[trigger] is_collection_at(types, files[at], place, kind)
                ==> ok(kind),
    ensures
        ({
            let after = kinds_from(types, files, i, acc);
            &&& acc.contains_key(place) ==> after.contains_key(place)
            &&& after.contains_key(place) ==> ok(after[place])
            &&& forall|at: int, kind: CollectionKind|
                i <= at < files.len() && #[trigger] is_collection_at(
                    types,
                    files[at],
                    place,
                    kind,
                ) ==> after.contains_key(place)
        }),
    decreases files.len() - i,
{
    if i < files.len() {
        assert forall|kind: CollectionKind| #[trigger]
            is_collection_at(types, files[i], place, kind) implies ok(kind) by {}
        lemma_kinds_of_bodies(types, files, i, 0, acc, place, ok);
        let next = kinds_of_bodies(types, files[i].id, files[i].bodies@, 0, acc);
        lemma_kinds(types, files, i + 1, next, place, ok);
        let after = kinds_from(types, files, i, acc);
        assert forall|at: int, kind: CollectionKind|
            i <= at < files.len() && #[trigger] is_collection_at(
                types,
                files[at],
                place,
                kind,
            ) implies after.contains_key(place) by {
            if at == i {
                let (b, e) = choose|b: int, e: int|
                    0 <= b < files[i].bodies@.len() && 0 <= e
                        < files[i].bodies@[b].expressions@.len() && place == (SpanKey {
                        file: files[i].id,
                        start: (#[trigger] files[i].bodies@[b].expressions@[e]).span.start,
                        end: files[i].bodies@[b].expressions@[e].span.end,
                    }) && collects_as(
                        types,
                        files[i].bodies@[b].expressions@[e].type_number,
                        Some(kind),
                    );
                let n = files[i].bodies@[b].expressions@[e].type_number;
                collections_go_by_type(types, n);
                assert(collection_number(types, n) is Some);
                assert(next.contains_key(place));
            }
        }
    }
}

/// What stands at a place is a collection just where an expression of that type stands there,
/// and of its kind.
pub proof fn places_collect_as_their_types(
    files: Seq<FileFacts>,
    types: Seq<TypeFact>,
    place: SpanKey,
)
    ensures
        match entry(names_of(files, types).collection_kinds, place) {
            Some(kind) => exists|at: int|
                0 <= at < files.len() && #[trigger] is_collection_at(
                    types,
                    files[at],
                    place,
                    kind,
                ),
            None => forall|at: int, kind: CollectionKind|
                0 <= at < files.len() ==> !#[trigger] is_collection_at(
                    types,
                    files[at],
                    place,
                    kind,
                ),
        },
{
    let ok = |kind: CollectionKind|
        exists|at: int|
            0 <= at < files.len() && #[trigger] is_collection_at(types, files[at], place, kind);
    let any = |kind: CollectionKind| true;
    lemma_kinds(types, files, 0, Map::empty(), place, any);
    assert forall|at: int, kind: CollectionKind|
        0 <= at < files.len() && #[trigger] is_collection_at(
            types,
            files[at],
            place,
            kind,
        ) implies ok(kind) by {}
    lemma_kinds(types, files, 0, Map::empty(), place, ok);
    let table = kinds_from(types, files, 0, Map::empty());
    if table.contains_key(place) {
        assert(ok(table[place]));
    }
}

/// A local stands at a place.
pub open spec fn is_defined_at(file: FileFacts, l: LocalFact, place: SpanKey) -> bool {
    defines(file, l) && place == (SpanKey {
        file: file.id,
        start: l.span.start,
        end: l.span.end,
    })
}

proof fn lemma_defined_in(
    file: FileFacts,
    locals: Seq<LocalFact>,
    i: int,
    acc: Map<SpanKey, LocalRef>,
    place: SpanKey,
    ok: spec_fn(LocalRef) -> bool,
)
    requires
        0 <= i,
        file.resolved matches Some(facts) && facts.locals@ == locals,
        acc.contains_key(place) ==> ok(acc[place]),
        forall|l: LocalFact| #[trigger] is_defined_at(file, l, place) ==> ok(l.id),
    ensures
        ({
            let after = defined_in(file.id, locals, i, acc);
            &&& acc.contains_key(place) ==> after.contains_key(place)
            &&& after.contains_key(place) ==> ok(after[place])
            &&& forall|k: int|
                i <= k < locals.len() && is_defined_at(file, #[trigger] locals[k], place)
                    ==> after.contains_key(place)
        }),
    decreases locals.len() - i,
{
    if i < locals.len() {
        let key = SpanKey { file: file.id, start: locals[i].span.start, end: locals[i].span.end };
        assert(locals.contains(locals[i]));
        if key == place {
            assert(is_defined_at(file, locals[i], place));
        }
        lemma_defined_in(file, locals, i + 1, acc.insert(key, locals[i].id), place, ok);
    }
}

proof fn lemma_defined(
    files: Seq<FileFacts>,
    i: int,
    acc: Map<SpanKey, LocalRef>,
    place: SpanKey,
    ok: spec_fn(LocalRef) -> bool,
)
    requires
        0 <= i,
        acc.contains_key(place) ==> ok(acc[place]),
        forall|at: int, l: LocalFact|
            0 <= at < files.len() && #[trigger] is_defined_at(files[at], l, place) ==> ok(l.id),
    ensures
        ({
            let after = defined_from(files, i, acc);
            &&& acc.contains_key(place) ==> after.contains_key(place)
            &&& after.contains_key(place) ==> ok(after[place])
            &&& forall|at: int, l: LocalFact|
                i <= at < files.len() && #[trigger] is_defined_at(files[at], l, place)
                    ==> after.contains_key(place)
        }),
    decreases files.len() - i,
{
    if i < files.len() {
        let next = match files[i].resolved {
            Some(facts) => {
                assert forall|l: LocalFact| #[trigger]
                    is_defined_at(files[i], l, place) implies ok(l.id) by {}
                lemma_defined_in(files[i], facts.locals@, 0, acc, place, ok);
                defined_in(files[i].id, facts.locals@, 0, acc)
            },
            None => acc,
        };
        lemma_defined(files, i + 1, next, place, ok);
        let after = defined_from(files, i, acc);
        assert forall|at: int, l: LocalFact|
            i <= at < files.len() && #[trigger] is_defined_at(
                files[at],
                l,
                place,
            ) implies after.contains_key(place) by {
            if at == i {
                let locals = files[i].resolved->Some_0.locals@;
                let k = choose|k: int| 0 <= k < locals.len() && locals[k] == l;
                assert(is_defined_at(files[i], locals[k], place));
                assert(next.contains_key(place));
            }
        }
    }
}

/// A node defines the local that is defined at its place.
pub proof fn places_define_their_locals(
    files: Seq<FileFacts>,
    types: Seq<TypeFact>,
    place: SpanKey,
)
    ensures
        match entry(names_of(files, types).defined, place) {
            Some(local) => exists|at: int, l: LocalFact|
                0 <= at < files.len() && #[trigger] is_defined_at(files[at], l, place) && l.id
                    == local,
            None => forall|at: int, l: LocalFact|
                0 <= at < files.len() ==> !#[trigger] is_defined_at(files[at], l, place),
        },
{
    let ok = |local: LocalRef|
        exists|at: int, l: LocalFact|
            0 <= at < files.len() && #[trigger] is_defined_at(files[at], l, place) && l.id
                == local;
    let any = |local: LocalRef| true;
    lemma_defined(files, 0, Map::empty(), place, any);
    assert forall|at: int, l: LocalFact|
        0 <= at < files.len() && #[trigger] is_defined_at(files[at], l, place) implies ok(
        l.id,
    ) by {}
    lemma_defined(files, 0, Map::empty(), place, ok);
    let table = defined_from(files, 0, Map::empty());
    if table.contains_key(place) {
        assert(ok(table[place]));
    }
}

} // verus!
