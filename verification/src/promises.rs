//! What holds of every snapshot.
use crate::calls::{
    all_complete, call_graph_has_each_target, call_graph_of, edge_of, has_edge, has_site, may_reach,
    normalized_sites, normalizing_keeps_calls,
};
use crate::definitions::definitions_lie_in_files;
use crate::diagnostics::{in_workspace_from, lint_diagnostic, lint_diagnostics_from};
use crate::facts::{
    file_symbols, lemma_nested, nested, nested_from, symbols_from, with_nested, FileFacts, LintFact,
    ProjectFacts, SymbolFact, TypeFact,
};
use crate::graphs::{graphs_from, GraphTablesView};
use crate::ids::{SpanKey, SymbolRef};
use crate::inspect::{
    built, graph_tables_of, lambdas_of, names_of, project_forest, project_program,
    project_program_is_ok, ProjectSnapshotView,
};
use crate::lambdas::{
    lambda_id, lambda_ids_from, lambda_info, lambda_infos_from, owned_by_lambda,
    symbols_with_lambdas, LambdaView,
};
use crate::model::{
    CallEdge, CallSite, CallSiteView, ControlFlowGraphView, ControlFlowScope, DiagnosticView,
    SymbolInfo, SymbolInfoView,
};
use crate::order::{key_before, lemma_key_order, Keyed, PartView};
use crate::origins::{callable_ids, sites_within, targets_are_callables};
use crate::program::{
    all_doubted, analysis_is_fixed_or_doubted, analyzed, program_analysis, ProgramView,
};
use crate::records::{callee_in_flow, every_call_is_recorded, site_key};
use crate::scope::NamesView;
use crate::sort::{sorting_keeps_items, stable_sorted};
use crate::symbols::{
    contract_infos, files_symbols_from, full_names_from, global_id, global_info, global_infos,
    globals_from, ids_from, listed_id, local_infos, nested_infos_from, sorted_symbols,
    symbol_ids_from,
};
use vstd::prelude::*;

verus! {

/// A symbol of a list has an id.
pub open spec fn has_id(symbols: Seq<SymbolInfoView>, id: Seq<char>) -> bool {
    exists|i: int| 0 <= i < symbols.len() && (#[trigger] symbols[i]).id == id
}

proof fn lemma_ids_of_both(a: Seq<SymbolInfoView>, b: Seq<SymbolInfoView>, id: Seq<char>)
    ensures
        has_id(a, id) ==> has_id(a + b, id),
        has_id(b, id) ==> has_id(a + b, id),
{
    if has_id(a, id) {
        let i = choose|i: int| 0 <= i < a.len() && (#[trigger] a[i]).id == id;
        assert((a + b)[i].id == id);
    }
    if has_id(b, id) {
        let i = choose|i: int| 0 <= i < b.len() && (#[trigger] b[i]).id == id;
        assert((a + b)[a.len() + i].id == id);
    }
}

proof fn lemma_in_either<A>(a: Seq<A>, b: Seq<A>, x: A)
    ensures
        (a + b).contains(x) ==> a.contains(x) || b.contains(x),
{
    if (a + b).contains(x) {
        let i = choose|i: int| 0 <= i < (a + b).len() && (a + b)[i] == x;
        if i < a.len() {
            assert(a[i] == x);
        } else {
            assert(b[i - a.len()] == x);
        }
    }
}

proof fn lemma_global_infos(
    file: FileFacts,
    symbol: SymbolFact,
    containing: Option<Seq<char>>,
    ids: Map<SymbolRef, Seq<char>>,
    places: Map<SpanKey, Seq<char>>,
    s: SymbolFact,
)
    ensures
        with_nested(symbol).contains(s) ==> has_id(
            global_infos(file, symbol, containing, ids, places),
            listed_id(ids, file.text.path@, s.id),
        ),
    decreases symbol, nested(symbol).len() + 1,
{
    let first = global_info(file, symbol, containing, ids, places);
    let out = seq![first];
    if seq![symbol].contains(s) {
        assert(s == symbol);
        assert(out[0].id == listed_id(ids, file.text.path@, s.id));
    }
    lemma_nested_infos(file, symbol, ids, places, 0, seq![symbol], out, s);
}

proof fn lemma_nested_infos(
    file: FileFacts,
    symbol: SymbolFact,
    ids: Map<SymbolRef, Seq<char>>,
    places: Map<SpanKey, Seq<char>>,
    i: int,
    acc: Seq<SymbolFact>,
    out: Seq<SymbolInfoView>,
    s: SymbolFact,
)
    requires
        acc.contains(s) ==> has_id(out, listed_id(ids, file.text.path@, s.id)),
    ensures
        nested_from(symbol, i, acc).contains(s) ==> has_id(
            nested_infos_from(file, symbol, ids, places, i, out),
            listed_id(ids, file.text.path@, s.id),
        ),
    decreases symbol, nested(symbol).len() - i,
{
    if 0 <= i < nested(symbol).len() {
        lemma_nested(symbol, i);
        let id = listed_id(ids, file.text.path@, s.id);
        let inner = nested(symbol)[i];
        let holder = Some(listed_id(ids, file.text.path@, symbol.id));
        lemma_global_infos(file, inner, holder, ids, places, s);
        let more = global_infos(file, inner, holder, ids, places);
        lemma_in_either(acc, with_nested(inner), s);
        lemma_ids_of_both(out, more, id);
        lemma_nested_infos(
            file,
            symbol,
            ids,
            places,
            i + 1,
            acc + with_nested(inner),
            out + more,
            s,
        );
    }
}

proof fn lemma_globals(
    file: FileFacts,
    ids: Map<SymbolRef, Seq<char>>,
    places: Map<SpanKey, Seq<char>>,
    i: int,
    acc: Seq<SymbolFact>,
    out: Seq<SymbolInfoView>,
    s: SymbolFact,
    id: Seq<char>,
)
    requires
        acc.contains(s) ==> has_id(out, listed_id(ids, file.text.path@, s.id)),
    ensures
        symbols_from(file.symbols@, i, acc).contains(s) ==> has_id(
            globals_from(file, ids, places, i, out),
            listed_id(ids, file.text.path@, s.id),
        ),
        has_id(out, id) ==> has_id(globals_from(file, ids, places, i, out), id),
    decreases file.symbols@.len() - i,
{
    if 0 <= i < file.symbols@.len() {
        let symbol = file.symbols@[i];
        let more = global_infos(file, symbol, None, ids, places);
        lemma_global_infos(file, symbol, None, ids, places, s);
        lemma_in_either(acc, with_nested(symbol), s);
        lemma_ids_of_both(out, more, listed_id(ids, file.text.path@, s.id));
        lemma_ids_of_both(out, more, id);
        lemma_globals(
            file,
            ids,
            places,
            i + 1,
            acc + with_nested(symbol),
            out + more,
            s,
            id,
        );
    }
}

proof fn lemma_file_listed(
    file: FileFacts,
    ids: Map<SymbolRef, Seq<char>>,
    names: Map<SymbolRef, Seq<char>>,
    places: Map<SpanKey, Seq<char>>,
    out: Seq<SymbolInfoView>,
    s: SymbolFact,
    id: Seq<char>,
)
    ensures
        ({
            let after = globals_from(file, ids, places, 0, out + contract_infos(file, places))
                + local_infos(file, ids, names, places);
            &&& has_id(out, id) ==> has_id(after, id)
            &&& file_symbols(file).contains(s) ==> has_id(
                after,
                listed_id(ids, file.text.path@, s.id),
            )
        }),
{
    let listed = listed_id(ids, file.text.path@, s.id);
    let first = out + contract_infos(file, places);
    let middle = globals_from(file, ids, places, 0, first);
    let locals = local_infos(file, ids, names, places);
    lemma_ids_of_both(out, contract_infos(file, places), id);
    lemma_globals(file, ids, places, 0, Seq::empty(), first, s, id);
    lemma_ids_of_both(middle, locals, id);
    lemma_ids_of_both(middle, locals, listed);
}

proof fn lemma_files_listed(
    files: Seq<FileFacts>,
    ids: Map<SymbolRef, Seq<char>>,
    names: Map<SymbolRef, Seq<char>>,
    places: Map<SpanKey, Seq<char>>,
    i: int,
    out: Seq<SymbolInfoView>,
    at: int,
    s: SymbolFact,
    id: Seq<char>,
)
    requires
        0 <= i,
    ensures
        has_id(out, id) ==> has_id(files_symbols_from(files, ids, names, places, i, out), id),
        i <= at < files.len() && file_symbols(files[at]).contains(s) ==> has_id(
            files_symbols_from(files, ids, names, places, i, out),
            listed_id(ids, files[at].text.path@, s.id),
        ),
    decreases files.len() - i,
{
    if i < files.len() {
        let after = globals_from(files[i], ids, places, 0, out + contract_infos(files[i], places))
            + local_infos(files[i], ids, names, places);
        lemma_file_listed(files[i], ids, names, places, out, s, id);
        lemma_files_listed(files, ids, names, places, i + 1, after, at, s, id);
        if at == i {
            lemma_files_listed(
                files,
                ids,
                names,
                places,
                i + 1,
                after,
                at,
                s,
                listed_id(ids, files[at].text.path@, s.id),
            );
        }
    }
}

/// A symbol with an id is declared in a file.
pub open spec fn is_declared(files: Seq<FileFacts>, symbol: SymbolRef, at: int, s: SymbolFact) -> bool {
    0 <= at < files.len() && file_symbols(files[at]).contains(s) && s.id == symbol
}

proof fn lemma_ids_declared(
    files: Seq<FileFacts>,
    at: int,
    symbols: Seq<SymbolFact>,
    i: int,
    acc: Map<SymbolRef, Seq<char>>,
    symbol: SymbolRef,
)
    requires
        0 <= at < files.len(),
        symbols == file_symbols(files[at]),
        0 <= i,
        acc.contains_key(symbol) ==> exists|j: int, s: SymbolFact| is_declared(files, symbol, j, s),
    ensures
        ids_from(files[at].text.path@, symbols, i, acc).contains_key(symbol) ==> exists|
            j: int,
            s: SymbolFact,
        |
            is_declared(files, symbol, j, s),
    decreases symbols.len() - i,
{
    if i < symbols.len() {
        let next = acc.insert(
            symbols[i].id,
            global_id(files[at].text.path@, symbols[i].id),
        );
        if symbols[i].id == symbol {
            assert(symbols.contains(symbols[i]));
            assert(is_declared(files, symbol, at, symbols[i]));
        }
        lemma_ids_declared(files, at, symbols, i + 1, next, symbol);
    }
}

proof fn lemma_symbol_ids_declared(
    files: Seq<FileFacts>,
    i: int,
    acc: Map<SymbolRef, Seq<char>>,
    symbol: SymbolRef,
)
    requires
        0 <= i,
        acc.contains_key(symbol) ==> exists|j: int, s: SymbolFact| is_declared(files, symbol, j, s),
    ensures
        symbol_ids_from(files, i, acc).contains_key(symbol) ==> exists|j: int, s: SymbolFact|
            is_declared(files, symbol, j, s),
    decreases files.len() - i,
{
    if i < files.len() {
        let next = ids_from(files[i].text.path@, file_symbols(files[i]), 0, acc);
        lemma_ids_declared(files, i, file_symbols(files[i]), 0, acc, symbol);
        lemma_symbol_ids_declared(files, i + 1, next, symbol);
    }
}

proof fn lemma_sorted_ids(list: Seq<SymbolInfoView>, id: Seq<char>)
    ensures
        has_id(list, id) ==> has_id(stable_sorted::<SymbolInfo>(list), id),
{
    if has_id(list, id) {
        let i = choose|i: int| 0 <= i < list.len() && (#[trigger] list[i]).id == id;
        sorting_keeps_items::<SymbolInfo>(list);
        assert(list.contains(list[i]));
        let sorted = stable_sorted::<SymbolInfo>(list);
        assert(sorted.contains(list[i]));
        let j = choose|j: int| 0 <= j < sorted.len() && sorted[j] == list[i];
        assert(sorted[j].id == id);
    }
}

proof fn lemma_lambda_infos(
    files: Seq<FileFacts>,
    symbols: Seq<SymbolInfoView>,
    lambdas: Seq<LambdaView>,
    ids: Map<SymbolRef, Seq<char>>,
    i: int,
    out: Seq<SymbolInfoView>,
    at: int,
    id: Seq<char>,
)
    requires
        0 <= i,
    ensures
        has_id(out, id) ==> has_id(lambda_infos_from(files, symbols, lambdas, ids, i, out), id),
        i <= at < lambdas.len() ==> has_id(
            lambda_infos_from(files, symbols, lambdas, ids, i, out),
            lambda_id(lambdas[at].path, lambdas[at].start, lambdas[at].end),
        ),
    decreases lambdas.len() - i,
{
    if i < lambdas.len() {
        let info = lambda_info(files, symbols, lambdas, ids, lambdas[i]);
        let next = out.push(info);
        if has_id(out, id) {
            let k = choose|k: int| 0 <= k < out.len() && (#[trigger] out[k]).id == id;
            assert(next[k].id == id);
        }
        assert(next[out.len() as int].id == info.id);
        lemma_lambda_infos(files, symbols, lambdas, ids, i + 1, next, at, id);
        if at == i {
            lemma_lambda_infos(files, symbols, lambdas, ids, i + 1, next, at, info.id);
        }
    }
}

proof fn lemma_lambda_ids(
    lambdas: Seq<LambdaView>,
    i: int,
    acc: Map<SpanKey, Seq<char>>,
    key: SpanKey,
)
    requires
        0 <= i,
        acc.contains_key(key) ==> exists|j: int|
            0 <= j < lambdas.len() && acc[key] == lambda_id(
                (#[trigger] lambdas[j]).path,
                lambdas[j].start,
                lambdas[j].end,
            ),
    ensures
        lambda_ids_from(lambdas, i, acc).contains_key(key) ==> exists|j: int|
            0 <= j < lambdas.len() && lambda_ids_from(lambdas, i, acc)[key] == lambda_id(
                (#[trigger] lambdas[j]).path,
                lambdas[j].start,
                lambdas[j].end,
            ),
    decreases lambdas.len() - i,
{
    if i < lambdas.len() {
        let lambda = lambdas[i];
        let next = acc.insert(
            SpanKey { file: lambda.file, start: lambda.start, end: lambda.end },
            lambda_id(lambda.path, lambda.start, lambda.end),
        );
        lemma_lambda_ids(lambdas, i + 1, next, key);
    }
}

/// The symbols that a snapshot of the files lists.
pub open spec fn listed_symbols(files: Seq<FileFacts>, names: NamesView) -> Seq<SymbolInfoView> {
    symbols_with_lambdas(
        files,
        sorted_symbols(
            files,
            names.symbol_ids,
            full_names_from(files, 0, Map::empty()),
            project_forest(files).places,
        ),
        lambdas_of(files),
        names.symbol_ids,
    )
}

/// Every callable and every lambda of a project is listed among its symbols.
pub proof fn callables_are_listed(files: Seq<FileFacts>, types: Seq<TypeFact>, id: Seq<char>)
    requires
        callable_ids(names_of(files, types)).contains(id),
    ensures
        has_id(listed_symbols(files, names_of(files, types)), id),
{
    let names = names_of(files, types);
    let ids = names.symbol_ids;
    let full = full_names_from(files, 0, Map::empty());
    let places = project_forest(files).places;
    let found = files_symbols_from(files, ids, full, places, 0, Seq::empty());
    let symbols = stable_sorted::<SymbolInfo>(found);
    let lambdas = lambdas_of(files);
    let infos = lambda_infos_from(files, symbols, lambdas, ids, 0, Seq::empty());
    let owned = symbols.map_values(|s: SymbolInfoView| owned_by_lambda(infos, s));
    if exists|symbol: SymbolRef|
        names.callables.contains(symbol) && ids.contains_key(symbol) && #[trigger] ids[symbol]
            == id {
        let symbol = choose|symbol: SymbolRef|
            names.callables.contains(symbol) && ids.contains_key(symbol) && #[trigger] ids[symbol]
                == id;
        lemma_symbol_ids_declared(files, 0, Map::empty(), symbol);
        let (at, s) = choose|at: int, s: SymbolFact| is_declared(files, symbol, at, s);
        lemma_files_listed(files, ids, full, places, 0, Seq::empty(), at, s, id);
        assert(listed_id(ids, files[at].text.path@, s.id) == id);
        lemma_sorted_ids(found, id);
        let i = choose|i: int| 0 <= i < symbols.len() && (#[trigger] symbols[i]).id == id;
        assert(owned[i].id == id);
        lemma_ids_of_both(owned, infos, id);
    } else {
        let key = choose|key: SpanKey|
            names.lambda_ids.contains_key(key) && #[trigger] names.lambda_ids[key] == id;
        lemma_lambda_ids(lambdas, 0, Map::empty(), key);
        let j = choose|j: int|
            0 <= j < lambdas.len() && names.lambda_ids[key] == lambda_id(
                (#[trigger] lambdas[j]).path,
                lambdas[j].start,
                lambdas[j].end,
            );
        lemma_lambda_infos(files, symbols, lambdas, ids, 0, Seq::empty(), j, id);
        lemma_ids_of_both(owned, infos, id);
    }
    lemma_sorted_ids(owned + infos, id);
}

/// The files of a project in the order of their paths.
pub open spec fn files_in_order(facts: ProjectFacts) -> Seq<FileFacts> {
    stable_sorted::<FileFacts>(facts.files@)
}

/// The program that is analyzed for a snapshot.
pub open spec fn analyzed_program(facts: ProjectFacts) -> ProgramView {
    let files = files_in_order(facts);
    project_program(files, names_of(files, facts.types@), project_forest(files).places)
}

proof fn lemma_normalized_within(found: Seq<CallSiteView>, all: Set<Seq<char>>)
    requires
        sites_within(found, all),
    ensures
        sites_within(normalized_sites(found), all),
{
    let sites = normalized_sites(found);
    assert forall|i: int, t: Seq<char>|
        0 <= i < sites.len() && #[trigger] sites[i].targets.contains(t) implies all.contains(t) by {
        let key = CallSite::key_view(sites[i]);
        normalizing_keeps_calls(found, key, t);
        assert(may_reach(sites, key, t));
        let j = choose|j: int|
            0 <= j < found.len() && CallSite::key_view(#[trigger] found[j]) == key
                && found[j].targets.contains(t);
        assert(found[j].targets.contains(t));
    }
}

proof fn lemma_callees_within(sites: Seq<CallSiteView>, all: Set<Seq<char>>, i: int)
    requires
        sites_within(sites, all),
        0 <= i < call_graph_of(sites).len(),
    ensures
        all.contains(call_graph_of(sites)[i].callee),
{
    let edge = call_graph_of(sites)[i];
    let key = CallEdge::key_view(edge);
    assert(has_edge(call_graph_of(sites), key));
    call_graph_has_each_target(sites, key);
    let (j, k) = choose|j: int, k: int|
        0 <= j < sites.len() && 0 <= k < sites[j].targets.len() && CallEdge::key_view(
            edge_of(#[trigger] sites[j], #[trigger] sites[j].targets[k]),
        ) == key;
    let target = sites[j].targets[k];
    let made = edge_of(sites[j], target);
    assert(CallEdge::key_view(made)[4] == PartView::Text(target));
    assert(key[4] == PartView::Text(edge.callee));
    assert(sites[j].targets.contains(target));
}

/// Every target of a call site, and every callee of the call graph, is listed among the symbols
/// of the snapshot: no target is invented.
pub proof fn targets_are_listed(facts: ProjectFacts)
    ensures
        built(facts) matches Ok(snapshot) ==> {
            &&& forall|i: int, t: Seq<char>|
                0 <= i < snapshot.call_sites.len() && #[trigger] snapshot.call_sites[i].targets.contains(
                    t,
                ) ==> has_id(snapshot.symbols, t)
            &&& forall|i: int|
                0 <= i < snapshot.call_graph.len() ==> has_id(
                    snapshot.symbols,
                    (#[trigger] snapshot.call_graph[i]).callee,
                )
        },
{
    let files = files_in_order(facts);
    let types = facts.types@;
    let names = names_of(files, types);
    let all = callable_ids(names);
    match built(facts) {
        Ok(snapshot) => {
            lemma_targets_within(facts);
            assert(snapshot.symbols == listed_symbols(files, names));
            assert forall|i: int, t: Seq<char>|
                0 <= i < snapshot.call_sites.len() && #[trigger] snapshot.call_sites[i].targets.contains(
                    t,
                ) implies has_id(snapshot.symbols, t) by {
                callables_are_listed(files, types, t);
            }
            assert forall|i: int| 0 <= i < snapshot.call_graph.len() implies has_id(
                snapshot.symbols,
                (#[trigger] snapshot.call_graph[i]).callee,
            ) by {
                lemma_callees_within(snapshot.call_sites, all, i);
                callables_are_listed(files, types, snapshot.call_graph[i].callee);
            }
        },
        Err(_) => {},
    }
}

proof fn lemma_targets_within(facts: ProjectFacts)
    ensures
        built(facts) matches Ok(snapshot) ==> sites_within(
            snapshot.call_sites,
            callable_ids(names_of(files_in_order(facts), facts.types@)),
        ),
{
    let files = files_in_order(facts);
    let names = names_of(files, facts.types@);
    let program = analyzed_program(facts);
    match built(facts) {
        Ok(snapshot) => {
            definitions_lie_in_files(files, names);
            project_program_is_ok(files, names, project_forest(files).places);
            targets_are_callables(program);
            lemma_normalized_within(
                program_analysis(program)->Some_0.call_sites,
                callable_ids(names),
            );
        },
        Err(_) => {},
    }
}

/// A snapshot lists every call that lies in the control flow of its caller, whether or not a
/// target of it is known.
pub proof fn calls_are_listed(facts: ProjectFacts, i: int)
    requires
        0 <= i < analyzed_program(facts).calls.len(),
        analyzed_program(facts).definitions.contains_key(analyzed_program(facts).calls[i].caller),
    ensures
        built(facts) matches Ok(snapshot) ==> (callee_in_flow(
            analyzed_program(facts),
            analyzed_program(facts).calls[i],
        ) matches Some(callee) ==> has_site(
            snapshot.call_sites,
            site_key(analyzed_program(facts), analyzed_program(facts).calls[i], callee),
        )),
{
    match built(facts) {
        Ok(snapshot) => {
            let files = files_in_order(facts);
            let names = names_of(files, facts.types@);
            let program = analyzed_program(facts);
            definitions_lie_in_files(files, names);
            every_call_is_recorded(program, i);
            match callee_in_flow(program, program.calls[i]) {
                Some(callee) => {
                    let found = program_analysis(program)->Some_0.call_sites;
                    normalizing_keeps_calls(
                        found,
                        site_key(program, program.calls[i], callee),
                        Seq::empty(),
                    );
                },
                None => {},
            }
        },
        Err(_) => {},
    }
}

proof fn lemma_normalized_doubted(found: Seq<CallSiteView>)
    requires
        all_doubted(found),
    ensures
        all_doubted(normalized_sites(found)),
{
    let sites = normalized_sites(found);
    assert forall|k: int|
        0 <= k < sites.len() && (#[trigger] sites[k]).dispatch == "indirect"@ implies !sites[k].complete by {
        let key = CallSite::key_view(sites[k]);
        normalizing_keeps_calls(found, key, Seq::empty());
        assert(has_site(sites, key));
        let j = choose|j: int|
            0 <= j < found.len() && CallSite::key_view(#[trigger] found[j]) == key;
        assert(key[4] == PartView::Text("indirect"@));
        assert(CallSite::key_view(found[j])[4] == PartView::Text(found[j].dispatch));
        assert(!all_complete(found, key));
        let m = choose|m: int|
            0 <= m < sites.len() && CallSite::key_view(#[trigger] sites[m]) == key
                && !sites[m].complete;
        lemma_key_order(key, key, key);
        if m < k {
            assert(key_before(CallSite::key_view(sites[m]), CallSite::key_view(sites[k])));
        } else if k < m {
            assert(key_before(CallSite::key_view(sites[k]), CallSite::key_view(sites[m])));
        }
    }
}

/// Where a snapshot says of an indirect call that it is complete, the values of the whole program
/// have settled: one more pass over it would find the same.
pub proof fn complete_calls_are_settled(facts: ProjectFacts)
    ensures
        built(facts) matches Ok(snapshot) ==> (program_analysis(
            analyzed_program(facts),
        ) matches Some(end) && (analyzed(analyzed_program(facts), end.summary, true) == Some(end)
            || all_doubted(snapshot.call_sites))),
{
    let program = analyzed_program(facts);
    match built(facts) {
        Ok(snapshot) => {
            let end = program_analysis(program)->Some_0;
            analysis_is_fixed_or_doubted(program);
            if all_doubted(end.call_sites) {
                lemma_normalized_doubted(end.call_sites);
            }
        },
        Err(_) => {},
    }
}

/// Which graphs are asked for changes nothing else in a snapshot, least of all its calls.
pub proof fn graphs_change_nothing_else(facts: ProjectFacts, scope: ControlFlowScope)
    ensures
        match (built(facts), built(ProjectFacts { control_flow: scope, ..facts })) {
            (Ok(one), Ok(other)) => one == (ProjectSnapshotView {
                control_flow_graphs: one.control_flow_graphs,
                ..other
            }),
            (Err(one), Err(other)) => one == other,
            _ => false,
        },
{
}

proof fn lemma_no_graphs(
    tables: GraphTablesView,
    files: Seq<FileFacts>,
    i: int,
    acc: Seq<ControlFlowGraphView>,
)
    ensures
        graphs_from(tables, ControlFlowScope::Off, files, i, acc) == acc,
    decreases files.len() - i,
{
    if 0 <= i < files.len() {
        lemma_no_graphs(tables, files, i + 1, acc);
    }
}

/// A snapshot shows no graphs when none are asked for.
pub proof fn graphs_can_be_left_out(facts: ProjectFacts)
    requires
        facts.control_flow is Off,
    ensures
        built(facts) matches Ok(snapshot) ==> snapshot.control_flow_graphs.len() == 0,
{
    let files = files_in_order(facts);
    let names = names_of(files, facts.types@);
    lemma_no_graphs(
        graph_tables_of(files, names),
        files,
        0,
        Seq::empty(),
    );
}

/// A diagnostic is that of a finding in the workspace.
pub open spec fn is_workspace_finding(
    files: Seq<FileFacts>,
    lints: Seq<LintFact>,
    diagnostic: DiagnosticView,
) -> bool {
    exists|i: int|
        0 <= i < lints.len() && in_workspace_from(files, lints[i].file, 0) && diagnostic
            == #[trigger] lint_diagnostic(files, lints[i])
}

proof fn lemma_findings(
    files: Seq<FileFacts>,
    lints: Seq<LintFact>,
    i: int,
    acc: Seq<DiagnosticView>,
    diagnostic: DiagnosticView,
)
    requires
        0 <= i,
        acc.contains(diagnostic) ==> is_workspace_finding(files, lints, diagnostic),
    ensures
        lint_diagnostics_from(files, lints, i, acc).contains(diagnostic) ==> is_workspace_finding(
            files,
            lints,
            diagnostic,
        ),
    decreases lints.len() - i,
{
    if i < lints.len() {
        if in_workspace_from(files, lints[i].file, 0) {
            let more = lint_diagnostic(files, lints[i]);
            let next = acc.push(more);
            if next.contains(diagnostic) {
                let k = choose|k: int| 0 <= k < next.len() && next[k] == diagnostic;
                if k < acc.len() {
                    assert(acc[k] == diagnostic);
                } else {
                    assert(diagnostic == lint_diagnostic(files, lints[i]));
                }
            }
            lemma_findings(files, lints, i + 1, next, diagnostic);
        } else {
            lemma_findings(files, lints, i + 1, acc, diagnostic);
        }
    }
}

/// Only the workspace is linted: the findings that are shown lie in its files.
pub proof fn only_the_workspace_is_linted(
    files: Seq<FileFacts>,
    lints: Seq<LintFact>,
    diagnostic: DiagnosticView,
)
    ensures
        lint_diagnostics_from(files, lints, 0, Seq::empty()).contains(diagnostic)
            ==> is_workspace_finding(files, lints, diagnostic),
{
    lemma_findings(files, lints, 0, Seq::empty(), diagnostic);
}

} // verus!
