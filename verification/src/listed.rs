//! Laws of the symbols that a snapshot lists.
use crate::facts::{nested, FileFacts, LocalFact, LocalKind, ProjectFacts, SymbolFact};
use crate::ids::{LocalRef, Span, SpanKey, SymbolRef};
use crate::inspect::{built, lambdas_of, names_of, project_forest};
use crate::known::{
    declared_at, declares, defines, known_apart, lemma_file_in_order, lemma_known_in_order,
    symbol_ids_are_known,
};
use crate::lambdas::{lambda_infos_from, owned_by_lambda};
use crate::model::{SourceLocationView, SymbolInfo, SymbolInfoView};
use crate::position::position_of;
use crate::promises::{files_in_order, listed_symbols};
use crate::sort::{sorting_keeps_items, stable_sorted};
use crate::symbols::{
    contract_infos, files_symbols_from, full_names_from, global_info, global_infos, globals_from,
    listed_id, local_info, local_infos, local_order, locals_from, nested_infos_from, sorted_symbols,
    Slot,
};
use crate::text::decimal;
use crate::written::lemma_pushed;
use vstd::prelude::*;

verus! {

/// A location is that of a span of a file.
pub open spec fn lies_at(place: SourceLocationView, file: FileFacts, span: Span) -> bool {
    &&& place.path == file.text.path@
    &&& place.byte_range.start == span.start
    &&& place.byte_range.end == span.end
    &&& place.range.start == position_of(file.text.source@, span.start as int)
    &&& place.range.end == position_of(file.text.source@, span.end as int)
}

/// The id of a declared symbol.
pub open spec fn id_of(file: FileFacts, symbol: SymbolRef) -> Seq<char> {
    "g:"@ + file.text.path@ + ":"@ + decimal(symbol.local as nat)
}

/// The id of a local.
pub open spec fn id_of_local(file: FileFacts, local: LocalRef) -> Seq<char> {
    "l:"@ + file.text.path@ + ":"@ + decimal(local.local as nat)
}

/// A listed symbol is a declared one: it has its id, its names, its kind, its places, its
/// documentation and its flags.
pub open spec fn describes_symbol(info: SymbolInfoView, file: FileFacts, s: SymbolFact) -> bool {
    &&& info.id == id_of(file, s.id)
    &&& info.name == s.name@
    &&& info.fqn == s.fqn@
    &&& s.kind is GlobalVariable ==> info.kind == "globalVariable"@
    &&& s.kind is Function ==> info.kind == "function"@
    &&& s.kind is Method ==> info.kind == "method"@
    &&& s.kind is GetMethod ==> info.kind == "getMethod"@
    &&& s.kind is Struct ==> info.kind == "struct"@
    &&& s.kind is StructField ==> info.kind == "structField"@
    &&& s.kind is Enum ==> info.kind == "enum"@
    &&& s.kind is EnumMember ==> info.kind == "enumMember"@
    &&& s.kind is Constant ==> info.kind == "constant"@
    &&& s.kind is TypeAlias ==> info.kind == "typeAlias"@
    &&& lies_at(info.declaration, file, s.name_span)
    &&& info.body matches Some(body) && lies_at(body, file, s.body_span)
    &&& match info.documentation {
        Some(text) => text == s.doc@ && s.doc@.len() > 0,
        None => s.doc@.len() == 0,
    }
    &&& info.flags.deprecated == s.deprecated
    &&& info.flags.pure == s.pure
    &&& info.flags.private == s.private
    &&& !info.flags.mutable
    &&& !info.flags.local
    &&& !info.flags.parameter
}

/// A listed symbol is a local.
pub open spec fn describes_local(info: SymbolInfoView, file: FileFacts, l: LocalFact) -> bool {
    &&& info.id == id_of_local(file, l.id)
    &&& info.name == l.name@
    &&& l.kind is Parameter ==> info.kind == "parameter"@
    &&& l.kind is Variable ==> info.kind == "localVariable"@
    &&& l.kind is Catch ==> info.kind == "catchVariable"@
    &&& l.kind is TypeParameter ==> info.kind == "typeParameter"@
    &&& lies_at(info.declaration, file, l.span)
    &&& info.body is None
    &&& info.documentation is None
    &&& info.flags.local
    &&& info.flags.parameter == (l.kind is Parameter)
    &&& match l.kind {
        LocalKind::Parameter { mutable } => info.flags.mutable == mutable,
        LocalKind::Variable { mutable } => info.flags.mutable == mutable,
        _ => !info.flags.mutable,
    }
    &&& !info.flags.deprecated
    &&& !info.flags.pure
    &&& !info.flags.private
}

pub proof fn lemma_in_sum<A>(a: Seq<A>, b: Seq<A>, x: A)
    ensures
        a.contains(x) ==> (a + b).contains(x),
        b.contains(x) ==> (a + b).contains(x),
{
    if a.contains(x) {
        let i = choose|i: int| 0 <= i < a.len() && a[i] == x;
        assert((a + b)[i] == x);
    }
    if b.contains(x) {
        let i = choose|i: int| 0 <= i < b.len() && b[i] == x;
        assert((a + b)[a.len() + i] == x);
    }
}

proof fn lemma_nested_keep(
    file: FileFacts,
    symbol: SymbolFact,
    ids: Map<SymbolRef, Seq<char>>,
    places: Map<SpanKey, Seq<char>>,
    i: int,
    acc: Seq<SymbolInfoView>,
    x: SymbolInfoView,
)
    requires
        0 <= i,
    ensures
        acc.contains(x) ==> nested_infos_from(file, symbol, ids, places, i, acc).contains(x),
        (exists|k: int|
            i <= k < nested(symbol).len() && #[trigger] global_infos(
                file,
                nested(symbol)[k],
                Some(listed_id(ids, file.text.path@, symbol.id)),
                ids,
                places,
            ).contains(x)) ==> nested_infos_from(file, symbol, ids, places, i, acc).contains(x),
    decreases nested(symbol).len() - i,
{
    if i < nested(symbol).len() {
        let holder = Some(listed_id(ids, file.text.path@, symbol.id));
        let more = global_infos(file, nested(symbol)[i], holder, ids, places);
        lemma_in_sum(acc, more, x);
        lemma_nested_keep(file, symbol, ids, places, i + 1, acc + more, x);
        if exists|k: int|
            i <= k < nested(symbol).len() && #[trigger] global_infos(
                file,
                nested(symbol)[k],
                holder,
                ids,
                places,
            ).contains(x) {
            let k = choose|k: int|
                i <= k < nested(symbol).len() && #[trigger] global_infos(
                    file,
                    nested(symbol)[k],
                    holder,
                    ids,
                    places,
                ).contains(x);
            if k > i {
                assert(i + 1 <= k < nested(symbol).len() && global_infos(
                    file,
                    nested(symbol)[k],
                    holder,
                    ids,
                    places,
                ).contains(x));
            }
        }
    }
}

/// What contains the symbol at the end of a path.
spec fn holder_at(
    file: FileFacts,
    ids: Map<SymbolRef, Seq<char>>,
    symbols: Seq<SymbolFact>,
    containing: Option<Seq<char>>,
    path: Seq<int>,
) -> Option<Seq<char>> {
    if path.len() == 1 {
        containing
    } else {
        match declared_at(symbols, path.drop_last()) {
            Some(parent) => Some(listed_id(ids, file.text.path@, parent.id)),
            None => None,
        }
    }
}

proof fn lemma_infos_at(
    file: FileFacts,
    symbols: Seq<SymbolFact>,
    containing: Option<Seq<char>>,
    path: Seq<int>,
    ids: Map<SymbolRef, Seq<char>>,
    places: Map<SpanKey, Seq<char>>,
    s: SymbolFact,
)
    requires
        declared_at(symbols, path) == Some(s),
    ensures
        global_infos(file, symbols[path[0]], containing, ids, places).contains(
            global_info(file, s, holder_at(file, ids, symbols, containing, path), ids, places),
        ),
    decreases path.len(),
{
    let symbol = symbols[path[0]];
    let x = global_info(file, s, holder_at(file, ids, symbols, containing, path), ids, places);
    let own = seq![global_info(file, symbol, containing, ids, places)];
    assert(own[0] == global_info(file, symbol, containing, ids, places));
    lemma_nested_keep(file, symbol, ids, places, 0, own, x);
    if path.len() > 1 {
        let rest = path.drop_first();
        let holder = Some(listed_id(ids, file.text.path@, symbol.id));
        assert(nested(symbol) == symbol.children@);
        lemma_infos_at(file, symbol.children@, holder, rest, ids, places, s);
        assert(path.drop_last()[0] == path[0]);
        if rest.len() == 1 {
            assert(path.drop_last() =~= seq![path[0]]);
        } else {
            assert(path.drop_last().drop_first() =~= rest.drop_last());
        }
        assert(global_infos(file, nested(symbol)[rest[0]], holder, ids, places).contains(x));
    }
}

proof fn lemma_globals_keep(
    file: FileFacts,
    ids: Map<SymbolRef, Seq<char>>,
    places: Map<SpanKey, Seq<char>>,
    i: int,
    acc: Seq<SymbolInfoView>,
    x: SymbolInfoView,
    k: int,
)
    requires
        0 <= i,
    ensures
        acc.contains(x) ==> globals_from(file, ids, places, i, acc).contains(x),
        i <= k < file.symbols@.len() && global_infos(
            file,
            file.symbols@[k],
            None,
            ids,
            places,
        ).contains(x) ==> globals_from(file, ids, places, i, acc).contains(x),
    decreases file.symbols@.len() - i,
{
    if i < file.symbols@.len() {
        let more = global_infos(file, file.symbols@[i], None, ids, places);
        lemma_in_sum(acc, more, x);
        lemma_globals_keep(file, ids, places, i + 1, acc + more, x, k);
    }
}

proof fn lemma_locals_keep(
    file: FileFacts,
    locals: Seq<LocalFact>,
    order: Seq<Slot>,
    ids: Map<SymbolRef, Seq<char>>,
    names: Map<SymbolRef, Seq<char>>,
    places: Map<SpanKey, Seq<char>>,
    i: int,
    acc: Seq<SymbolInfoView>,
    x: SymbolInfoView,
    k: int,
)
    requires
        0 <= i,
    ensures
        acc.contains(x) ==> locals_from(file, locals, order, ids, names, places, i, acc).contains(
            x,
        ),
        i <= k < order.len() && x == local_info(
            file,
            locals[order[k].index as int],
            ids,
            names,
            places,
        ) ==> locals_from(file, locals, order, ids, names, places, i, acc).contains(x),
    decreases order.len() - i,
{
    if i < order.len() {
        let own = local_info(file, locals[order[i].index as int], ids, names, places);
        lemma_pushed(acc, own);
        lemma_locals_keep(
            file,
            locals,
            order,
            ids,
            names,
            places,
            i + 1,
            acc.push(own),
            x,
            k,
        );
    }
}

proof fn lemma_local_infos(
    file: FileFacts,
    ids: Map<SymbolRef, Seq<char>>,
    names: Map<SymbolRef, Seq<char>>,
    places: Map<SpanKey, Seq<char>>,
    l: LocalFact,
)
    requires
        defines(file, l),
    ensures
        local_infos(file, ids, names, places).contains(local_info(file, l, ids, names, places)),
{
    let facts = file.resolved->Some_0;
    let locals = facts.locals@;
    let slots: Seq<Slot> = Seq::new(
        locals.len(),
        |i: int| Slot { key: locals[i].span.start as u64, index: i as usize },
    );
    let order = local_order(locals);
    let j = choose|j: int| 0 <= j < locals.len() && locals[j] == l;
    assert(facts.locals.len() == locals.len());
    sorting_keeps_items::<Slot>(slots);
    assert(slots.contains(slots[j]));
    assert(order.contains(slots[j]));
    let k = choose|k: int| 0 <= k < order.len() && order[k] == slots[j];
    assert(order[k].index as int == j);
    lemma_locals_keep(
        file,
        locals,
        order,
        ids,
        names,
        places,
        0,
        Seq::empty(),
        local_info(file, l, ids, names, places),
        k,
    );
}

/// What a file lists.
pub open spec fn file_lists(
    file: FileFacts,
    ids: Map<SymbolRef, Seq<char>>,
    names: Map<SymbolRef, Seq<char>>,
    places: Map<SpanKey, Seq<char>>,
    x: SymbolInfoView,
) -> bool {
    ||| contract_infos(file, places).contains(x)
    ||| exists|k: int|
        0 <= k < file.symbols@.len() && #[trigger] global_infos(
            file,
            file.symbols@[k],
            None,
            ids,
            places,
        ).contains(x)
    ||| local_infos(file, ids, names, places).contains(x)
}

proof fn lemma_files_keep(
    files: Seq<FileFacts>,
    ids: Map<SymbolRef, Seq<char>>,
    names: Map<SymbolRef, Seq<char>>,
    places: Map<SpanKey, Seq<char>>,
    i: int,
    acc: Seq<SymbolInfoView>,
    x: SymbolInfoView,
    at: int,
)
    requires
        0 <= i,
    ensures
        acc.contains(x) ==> files_symbols_from(files, ids, names, places, i, acc).contains(x),
        i <= at < files.len() && file_lists(files[at], ids, names, places, x)
            ==> files_symbols_from(files, ids, names, places, i, acc).contains(x),
    decreases files.len() - i,
{
    if i < files.len() {
        let file = files[i];
        let first = acc + contract_infos(file, places);
        let middle = globals_from(file, ids, places, 0, first);
        let locals = local_infos(file, ids, names, places);
        lemma_in_sum(acc, contract_infos(file, places), x);
        lemma_globals_keep(file, ids, places, 0, first, x, 0);
        lemma_in_sum(middle, locals, x);
        if exists|k: int|
            0 <= k < file.symbols@.len() && #[trigger] global_infos(
                file,
                file.symbols@[k],
                None,
                ids,
                places,
            ).contains(x) {
            let k = choose|k: int|
                0 <= k < file.symbols@.len() && #[trigger] global_infos(
                    file,
                    file.symbols@[k],
                    None,
                    ids,
                    places,
                ).contains(x);
            lemma_globals_keep(file, ids, places, 0, first, x, k);
        }
        lemma_files_keep(files, ids, names, places, i + 1, middle + locals, x, at);
    }
}

/// The symbols that are shown of a project.
pub open spec fn shown_symbols(facts: ProjectFacts) -> Seq<SymbolInfoView> {
    listed_symbols(files_in_order(facts), names_of(files_in_order(facts), facts.types@))
}

/// A symbol is another, or a local in a lambda.
pub open spec fn is_or_local(y: SymbolInfoView, x: SymbolInfoView) -> bool {
    y == x || (x.flags.local && y == (SymbolInfoView {
        containing_symbol: y.containing_symbol,
        fqn: y.fqn,
        ..x
    }))
}

/// What is listed of a file is listed in a snapshot, locals with their lambda as what contains
/// them.
pub proof fn lemma_listed(facts: ProjectFacts, at: int, x: SymbolInfoView)
    requires
        0 <= at < files_in_order(facts).len(),
        file_lists(
            files_in_order(facts)[at],
            names_of(files_in_order(facts), facts.types@).symbol_ids,
            full_names_from(files_in_order(facts), 0, Map::empty()),
            project_forest(files_in_order(facts)).places,
            x,
        ),
    ensures
        exists|y: SymbolInfoView| #[trigger]
            shown_symbols(facts).contains(y) && is_or_local(y, x),
{
    let files = files_in_order(facts);
    let ids = names_of(files, facts.types@).symbol_ids;
    let names = full_names_from(files, 0, Map::empty());
    let places = project_forest(files).places;
    let found = files_symbols_from(files, ids, names, places, 0, Seq::empty());
    let symbols = sorted_symbols(files, ids, names, places);
    let infos = lambda_infos_from(files, symbols, lambdas_of(files), ids, 0, Seq::empty());
    let owned = symbols.map_values(|s: SymbolInfoView| owned_by_lambda(infos, s));
    lemma_files_keep(files, ids, names, places, 0, Seq::empty(), x, at);
    sorting_keeps_items::<SymbolInfo>(found);
    assert(symbols.contains(x));
    let i = choose|i: int| 0 <= i < symbols.len() && symbols[i] == x;
    let y = owned_by_lambda(infos, x);
    assert(owned[i] == y);
    assert(owned.contains(y));
    lemma_in_sum(owned, infos, y);
    sorting_keeps_items::<SymbolInfo>(owned + infos);
    assert(shown_symbols(facts) == stable_sorted::<SymbolInfo>(owned + infos));
    assert(shown_symbols(facts).contains(y) && is_or_local(y, x));
}

proof fn lemma_parent_declared(symbols: Seq<SymbolFact>, path: Seq<int>)
    requires
        declared_at(symbols, path) is Some,
        path.len() > 1,
    ensures
        declared_at(symbols, path.drop_last()) is Some,
    decreases path.len(),
{
    let front = path.drop_last();
    assert(front[0] == path[0]);
    if path.len() > 2 {
        lemma_parent_declared(symbols[path[0]].children@, path.drop_first());
        assert(front.drop_first() =~= path.drop_first().drop_last());
    }
}

/// A list holds a declared symbol as what it is, contained in what declares it.
pub open spec fn lists_declared(
    list: Seq<SymbolInfoView>,
    file: FileFacts,
    path: Seq<int>,
    s: SymbolFact,
) -> bool {
    exists|info: SymbolInfoView| #[trigger]
        list.contains(info) && describes_symbol(info, file, s) && info.containing_symbol == (
        if path.len() == 1 {
            None
        } else {
            match declared_at(file.symbols@, path.drop_last()) {
                Some(parent) => Some(id_of(file, parent.id)),
                None => None,
            }
        })
}

/// A list holds a local as what it is.
pub open spec fn lists_local(list: Seq<SymbolInfoView>, file: FileFacts, l: LocalFact) -> bool {
    exists|info: SymbolInfoView| #[trigger] list.contains(info) && describes_local(info, file, l)
}

pub proof fn lemma_same_when_global(facts: ProjectFacts, x: SymbolInfoView)
    requires
        !x.flags.local,
        exists|y: SymbolInfoView| #[trigger]
            shown_symbols(facts).contains(y) && is_or_local(y, x),
    ensures
        shown_symbols(facts).contains(x),
{
}

proof fn lemma_info(
    file: FileFacts,
    s: SymbolFact,
    holder: Option<Seq<char>>,
    ids: Map<SymbolRef, Seq<char>>,
    places: Map<SpanKey, Seq<char>>,
)
    requires
        ids.contains_key(s.id),
        ids[s.id] == id_of(file, s.id),
    ensures
        describes_symbol(global_info(file, s, holder, ids, places), file, s),
        global_info(file, s, holder, ids, places).containing_symbol == holder,
{
}

proof fn lemma_local_info(
    file: FileFacts,
    l: LocalFact,
    ids: Map<SymbolRef, Seq<char>>,
    names: Map<SymbolRef, Seq<char>>,
    places: Map<SpanKey, Seq<char>>,
    y: SymbolInfoView,
)
    requires
        is_or_local(y, local_info(file, l, ids, names, places)),
    ensures
        describes_local(y, file, l),
{
}

proof fn lemma_declared_listed(facts: ProjectFacts, i: int, path: Seq<int>, s: SymbolFact)
    requires
        known_apart(facts.files@),
        0 <= i < facts.files@.len(),
        declared_at(facts.files@[i].symbols@, path) == Some(s),
    ensures
        lists_declared(shown_symbols(facts), facts.files@[i], path, s),
{
    let files = files_in_order(facts);
    let file = facts.files@[i];
    let ids = names_of(files, facts.types@).symbol_ids;
    let places = project_forest(files).places;
    let at = lemma_file_in_order(facts, i);
    lemma_known_in_order(facts);
    assert(declares(files[at], s));
    symbol_ids_are_known(files, at, s);
    let holder = holder_at(file, ids, file.symbols@, None, path);
    if path.len() > 1 {
        lemma_parent_declared(file.symbols@, path);
        let parent = declared_at(file.symbols@, path.drop_last())->Some_0;
        assert(declares(files[at], parent));
        symbol_ids_are_known(files, at, parent);
    }
    let x = global_info(file, s, holder, ids, places);
    lemma_infos_at(file, file.symbols@, None, path, ids, places, s);
    assert(global_infos(file, file.symbols@[path[0]], None, ids, places).contains(x));
    lemma_listed(facts, at, x);
    lemma_info(file, s, holder, ids, places);
    lemma_same_when_global(facts, x);
}

/// Every symbol that a file of a project declares is listed as what it is. A field of a struct
/// and a member of an enum is contained in it; a symbol of the file itself in nothing.
pub proof fn declared_symbols_are_listed(
    facts: ProjectFacts,
    i: int,
    path: Seq<int>,
    s: SymbolFact,
)
    requires
        known_apart(facts.files@),
        0 <= i < facts.files@.len(),
        declared_at(facts.files@[i].symbols@, path) == Some(s),
    ensures
        built(facts) matches Ok(snapshot) ==> lists_declared(
            snapshot.symbols,
            facts.files@[i],
            path,
            s,
        ),
{
    lemma_declared_listed(facts, i, path, s);
}

proof fn lemma_local_listed(facts: ProjectFacts, i: int, l: LocalFact)
    requires
        0 <= i < facts.files@.len(),
        defines(facts.files@[i], l),
    ensures
        lists_local(shown_symbols(facts), facts.files@[i], l),
{
    let files = files_in_order(facts);
    let file = facts.files@[i];
    let ids = names_of(files, facts.types@).symbol_ids;
    let names = full_names_from(files, 0, Map::empty());
    let places = project_forest(files).places;
    let at = lemma_file_in_order(facts, i);
    let x = local_info(file, l, ids, names, places);
    lemma_local_infos(file, ids, names, places, l);
    lemma_listed(facts, at, x);
    let y = choose|y: SymbolInfoView| #[trigger]
        shown_symbols(facts).contains(y) && is_or_local(y, x);
    lemma_local_info(file, l, ids, names, places, y);
}

/// Every local that a file of a project defines is listed as what it is.
pub proof fn defined_locals_are_listed(facts: ProjectFacts, i: int, l: LocalFact)
    requires
        0 <= i < facts.files@.len(),
        defines(facts.files@[i], l),
    ensures
        built(facts) matches Ok(snapshot) ==> lists_local(
            snapshot.symbols,
            facts.files@[i],
            l,
        ),
{
    lemma_local_listed(facts, i, l);
}

} // verus!
