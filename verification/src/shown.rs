//! Laws of the control-flow graphs that a snapshot shows.
use crate::facts::{file_symbols, is_callable, FileFacts, LambdaFact, ProjectFacts, SymbolFact};
use crate::flow::{graph_ok, FlowGraph};
use crate::graphs::{
    flow_node_id, graphs_from, is_asked, known_locals, known_locals_from, lambda_graph_from,
    lambda_graphs_from, shown_graph, shown_graph_is_closed, symbol_graphs_from, GraphTablesView,
};
use crate::ids::{LocalRef, Span, SpanKey};
use crate::inspect::{built, graph_tables_of, lambdas_of, names_of};
use crate::known::{declares, lemma_file_given, lemma_file_in_order, symbols_lie_at_paths};
use crate::lambdas::{lambda_id, lambda_ids_from, LambdaView};
use crate::model::{ControlFlowGraph, ControlFlowGraphView, ControlFlowScope, SourceKind};
use crate::promises::files_in_order;
use crate::scope::text_under;
use crate::sort::sorting_keeps_items;
use crate::tables::{ascending, lemma_ascending};
use crate::written::{can_be_called, lemma_pushed};
use vstd::prelude::*;

verus! {

/// A graph is shown as it is given: with its nodes and edges in their order, and with what each
/// node reads and writes.
pub open spec fn shows(
    shown: ControlFlowGraphView,
    graph: FlowGraph,
    path: Seq<char>,
    locals: Map<LocalRef, Seq<char>>,
) -> bool {
    &&& shown.nodes.len() == graph.nodes@.len()
    &&& shown.edges.len() == graph.edges@.len()
    &&& shown.entry == shown.nodes[graph.entry as int].id
    &&& shown.exit == shown.nodes[graph.exit as int].id
    &&& forall|i: int, j: int|
        0 <= i < j < shown.nodes.len() ==> (#[trigger] shown.nodes[i]).id != (
        #[trigger] shown.nodes[j]).id
    &&& forall|k: int| 0 <= k < shown.edges.len() ==> #[trigger] shows_edge(shown, graph, k)
    &&& forall|k: int|
        0 <= k < shown.nodes.len() ==> #[trigger] shows_node(shown, graph, path, locals, k)
}

/// An edge leads from the node at which it starts to the node at which it ends, and is of the
/// kind that it is given with.
pub open spec fn shows_edge(shown: ControlFlowGraphView, graph: FlowGraph, k: int) -> bool {
    let given = graph.edges@[k];
    let edge = shown.edges[k];
    &&& edge.from == shown.nodes[given.from as int].id
    &&& edge.to == shown.nodes[given.to as int].id
    &&& given.kind is Unconditional ==> edge.kind == "unconditional"@
    &&& given.kind is TrueBranch ==> edge.kind == "trueBranch"@
    &&& given.kind is FalseBranch ==> edge.kind == "falseBranch"@
    &&& given.kind is LoopBack ==> edge.kind == "loopBack"@
    &&& given.kind is Break ==> edge.kind == "break"@
    &&& given.kind is Continue ==> edge.kind == "continue"@
    &&& given.kind is Return ==> edge.kind == "return"@
    &&& given.kind is Throw ==> edge.kind == "throw"@
    &&& given.kind is Exceptional ==> edge.kind == "exceptional"@
}

/// A node is of the kind that it is given with, lies where it is given, and reads and writes the
/// locals that it is given with.
pub open spec fn shows_node(
    shown: ControlFlowGraphView,
    graph: FlowGraph,
    path: Seq<char>,
    locals: Map<LocalRef, Seq<char>>,
    k: int,
) -> bool {
    let given = graph.nodes@[k];
    let node = shown.nodes[k];
    &&& given.kind is Entry ==> node.kind == "entry"@
    &&& given.kind is Exit ==> node.kind == "exit"@
    &&& given.kind is Nop ==> node.kind == "nop"@
    &&& given.kind is Expression ==> node.kind == "expression"@
    &&& given.kind is Condition ==> node.kind == "condition"@
    &&& given.kind is Assertion ==> node.kind == "assert"@
    &&& given.kind is Return ==> node.kind == "return"@
    &&& given.kind is Throw ==> node.kind == "throw"@
    &&& given.kind is Break ==> node.kind == "break"@
    &&& given.kind is Continue ==> node.kind == "continue"@
    &&& given.kind is MatchPattern ==> node.kind == "matchPattern"@
    &&& given.kind is CatchBinding ==> node.kind == "catchBinding"@
    &&& given.kind is Join ==> node.kind == "join"@
    &&& match given.span {
        Some(span) => node.location matches Some(place) && place.path == path
            && place.byte_range.start == span.start && place.byte_range.end == span.end,
        None => node.location is None && node.ast_node_id is None,
    }
    &&& forall|id: Seq<char>| #[trigger]
        node.reads.contains(id) <==> exists|l: LocalRef| #[trigger]
            given.reads@.contains(l) && locals.contains_key(l) && locals[l] == id
    &&& forall|id: Seq<char>| #[trigger]
        node.writes.contains(id) <==> exists|l: LocalRef| #[trigger]
            given.writes@.contains(l) && locals.contains_key(l) && locals[l] == id
}

proof fn lemma_known_from(
    table: Map<LocalRef, Seq<char>>,
    locals: Seq<LocalRef>,
    i: int,
    acc: Seq<Seq<char>>,
    id: Seq<char>,
)
    requires
        0 <= i,
    ensures
        known_locals_from(table, locals, i, acc).contains(id) <==> acc.contains(id) || exists|
            j: int,
        |
            i <= j < locals.len() && table.contains_key(#[trigger] locals[j]) && table[locals[j]]
                == id,
    decreases locals.len() - i,
{
    if i < locals.len() {
        let next = match text_under(table, locals[i]) {
            Some(text) => acc.push(text),
            None => acc,
        };
        if table.contains_key(locals[i]) {
            lemma_pushed(acc, table[locals[i]]);
        }
        lemma_known_from(table, locals, i + 1, next, id);
        if exists|j: int|
            i <= j < locals.len() && table.contains_key(#[trigger] locals[j]) && table[locals[j]]
                == id {
            let j = choose|j: int|
                i <= j < locals.len() && table.contains_key(#[trigger] locals[j])
                    && table[locals[j]] == id;
            if j > i {
                assert(i + 1 <= j < locals.len() && table.contains_key(locals[j]));
            }
        }
        if next.contains(id) && !acc.contains(id) {
            assert(table.contains_key(locals[i]) && table[locals[i]] == id);
        }
    }
}

proof fn lemma_known_locals(table: Map<LocalRef, Seq<char>>, locals: Seq<LocalRef>, id: Seq<char>)
    ensures
        known_locals(table, locals).contains(id) <==> exists|l: LocalRef| #[trigger]
            locals.contains(l) && table.contains_key(l) && table[l] == id,
{
    let found = known_locals_from(table, locals, 0, Seq::empty());
    lemma_known_from(table, locals, 0, Seq::empty(), id);
    sorting_keeps_items::<String>(found);
    if found.contains(id) {
        let j = choose|j: int|
            0 <= j < locals.len() && table.contains_key(#[trigger] locals[j]) && table[locals[j]]
                == id;
        assert(locals.contains(locals[j]));
    }
    if exists|l: LocalRef| #[trigger]
        locals.contains(l) && table.contains_key(l) && table[l] == id {
        let l = choose|l: LocalRef| #[trigger]
            locals.contains(l) && table.contains_key(l) && table[l] == id;
        let j = choose|j: int| 0 <= j < locals.len() && locals[j] == l;
        assert(table.contains_key(locals[j]) && table[locals[j]] == id);
    }
}

/// A graph is shown as it is given: its edges lead from where they start to where they end, and
/// each node and each edge is of its kind.
pub proof fn graphs_are_shown_as_given(
    tables: GraphTablesView,
    file: FileFacts,
    symbol: Seq<char>,
    graph: FlowGraph,
)
    requires
        graph_ok(graph),
    ensures
        shown_graph(tables, file, symbol, graph).symbol_id == symbol,
        shows(
            shown_graph(tables, file, symbol, graph),
            graph,
            file.text.path@,
            tables.locals,
        ),
{
    let shown = shown_graph(tables, file, symbol, graph);
    shown_graph_is_closed(tables, file, symbol, graph);
    assert forall|k: int| 0 <= k < shown.edges.len() implies #[trigger] shows_edge(
        shown,
        graph,
        k,
    ) by {
        let edge = graph.edges@[k];
        assert(shown.nodes[edge.from as int].id == flow_node_id(symbol, edge.from as nat));
        assert(shown.nodes[edge.to as int].id == flow_node_id(symbol, edge.to as nat));
    }
    assert forall|k: int| 0 <= k < shown.nodes.len() implies #[trigger] shows_node(
        shown,
        graph,
        file.text.path@,
        tables.locals,
        k,
    ) by {
        let node = graph.nodes@[k];
        assert forall|id: Seq<char>| #[trigger]
            shown.nodes[k].reads.contains(id) <==> exists|l: LocalRef| #[trigger]
                node.reads@.contains(l) && tables.locals.contains_key(l) && tables.locals[l]
                    == id by {
            lemma_known_locals(tables.locals, node.reads@, id);
        }
        assert forall|id: Seq<char>| #[trigger]
            shown.nodes[k].writes.contains(id) <==> exists|l: LocalRef| #[trigger]
                node.writes@.contains(l) && tables.locals.contains_key(l) && tables.locals[l]
                    == id by {
            lemma_known_locals(tables.locals, node.writes@, id);
        }
    }
}

/// The graphs of a file are asked for.
pub open spec fn wants(scope: ControlFlowScope, kind: SourceKind) -> bool {
    scope is All || (scope is Workspace && kind is Workspace)
}

/// The graph of a callable symbol of a file, or of a lambda of it.
pub open spec fn is_graph_of(
    tables: GraphTablesView,
    file: FileFacts,
    id: Seq<char>,
    graph: FlowGraph,
) -> bool {
    ||| exists|s: SymbolFact| #[trigger]
        declares(file, s) && can_be_called(s) && s.graph == Some(graph) && tables.ids.contains_key(
            s.id,
        ) && tables.ids[s.id] == id
    ||| exists|k: SpanKey| #[trigger]
        tables.lambda_ids.contains_key(k) && k.file == file.id && tables.lambda_ids[k] == id
            && first_lambda_graph(file.lambdas@, Span { start: k.start, end: k.end }) == Some(
            graph,
        )
}

/// The graph of the first lambda at a span.
pub open spec fn first_lambda_graph(lambdas: Seq<LambdaFact>, span: Span) -> Option<FlowGraph> {
    if exists|j: int| is_first_lambda(lambdas, span, j) {
        lambdas[choose|j: int| is_first_lambda(lambdas, span, j)].graph
    } else {
        None
    }
}

/// The lambda at a position is the first at a span.
pub open spec fn is_first_lambda(lambdas: Seq<LambdaFact>, span: Span, j: int) -> bool {
    &&& 0 <= j < lambdas.len()
    &&& lambdas[j].span == span
    &&& forall|k: int| 0 <= k < j ==> (#[trigger] lambdas[k]).span != span
}

proof fn lemma_lambda_graph(lambdas: Seq<LambdaFact>, span: Span, i: int)
    requires
        0 <= i <= lambdas.len(),
        forall|k: int| 0 <= k < i ==> (#[trigger] lambdas[k]).span != span,
    ensures
        lambda_graph_from(lambdas, span, i) == first_lambda_graph(lambdas, span),
    decreases lambdas.len() - i,
{
    if i < lambdas.len() {
        if lambdas[i].span == span {
            assert(is_first_lambda(lambdas, span, i));
            let j = choose|j: int| is_first_lambda(lambdas, span, j);
            assert(j == i) by {
                if j < i {
                    assert(lambdas[j].span != span);
                } else if i < j {
                    assert(lambdas[i].span != span);
                }
            }
        } else {
            lemma_lambda_graph(lambdas, span, i + 1);
        }
    } else {
        if exists|j: int| is_first_lambda(lambdas, span, j) {
            let j = choose|j: int| is_first_lambda(lambdas, span, j);
            assert(lambdas[j].span != span);
        }
    }
}

proof fn lemma_symbol_graphs(
    tables: GraphTablesView,
    file: FileFacts,
    symbols: Seq<SymbolFact>,
    i: int,
    acc: Seq<ControlFlowGraphView>,
    g: ControlFlowGraphView,
)
    requires
        0 <= i,
    ensures
        symbol_graphs_from(tables, file, symbols, i, acc).contains(g) <==> acc.contains(g)
            || exists|k: int|
            i <= k < symbols.len() && #[trigger] shows_symbol(tables, file, symbols[k], g),
    decreases symbols.len() - i,
{
    if i < symbols.len() {
        let symbol = symbols[i];
        let next = match (text_under(tables.ids, symbol.id), symbol.graph) {
            (Some(id), Some(graph)) => if is_callable(symbol) {
                lemma_pushed(acc, shown_graph(tables, file, id, graph));
                acc.push(shown_graph(tables, file, id, graph))
            } else {
                acc
            },
            _ => acc,
        };
        lemma_symbol_graphs(tables, file, symbols, i + 1, next, g);
        if next.contains(g) && !acc.contains(g) {
            assert(shows_symbol(tables, file, symbols[i], g));
        }
        if exists|k: int|
            i <= k < symbols.len() && #[trigger] shows_symbol(tables, file, symbols[k], g) {
            let k = choose|k: int|
                i <= k < symbols.len() && #[trigger] shows_symbol(tables, file, symbols[k], g);
            if k > i {
                assert(i + 1 <= k < symbols.len() && shows_symbol(tables, file, symbols[k], g));
            }
        }
    }
}

spec fn shows_symbol(
    tables: GraphTablesView,
    file: FileFacts,
    s: SymbolFact,
    g: ControlFlowGraphView,
) -> bool {
    &&& can_be_called(s)
    &&& tables.ids.contains_key(s.id)
    &&& s.graph matches Some(graph) && g == shown_graph(tables, file, tables.ids[s.id], graph)
}

spec fn shows_lambda(
    tables: GraphTablesView,
    file: FileFacts,
    k: SpanKey,
    g: ControlFlowGraphView,
) -> bool {
    &&& k.file == file.id
    &&& first_lambda_graph(file.lambdas@, Span { start: k.start, end: k.end }) matches Some(graph)
        && g == shown_graph(tables, file, tables.lambda_ids[k], graph)
}

proof fn lemma_lambda_graphs(
    tables: GraphTablesView,
    file: FileFacts,
    keys: Seq<SpanKey>,
    i: int,
    acc: Seq<ControlFlowGraphView>,
    g: ControlFlowGraphView,
)
    requires
        0 <= i,
    ensures
        lambda_graphs_from(tables, file, keys, i, acc).contains(g) <==> acc.contains(g)
            || exists|k: int|
            i <= k < keys.len() && #[trigger] shows_lambda(tables, file, keys[k], g),
    decreases keys.len() - i,
{
    if i < keys.len() {
        let key = keys[i];
        let span = Span { start: key.start, end: key.end };
        lemma_lambda_graph(file.lambdas@, span, 0);
        let next = if key.file == file.id {
            match lambda_graph_from(file.lambdas@, span, 0) {
                Some(graph) => {
                    lemma_pushed(acc, shown_graph(tables, file, tables.lambda_ids[key], graph));
                    acc.push(shown_graph(tables, file, tables.lambda_ids[key], graph))
                },
                None => acc,
            }
        } else {
            acc
        };
        lemma_lambda_graphs(tables, file, keys, i + 1, next, g);
        if next.contains(g) && !acc.contains(g) {
            assert(shows_lambda(tables, file, keys[i], g));
        }
        if exists|k: int|
            i <= k < keys.len() && #[trigger] shows_lambda(tables, file, keys[k], g) {
            let k = choose|k: int|
                i <= k < keys.len() && #[trigger] shows_lambda(tables, file, keys[k], g);
            if k > i {
                assert(i + 1 <= k < keys.len() && shows_lambda(tables, file, keys[k], g));
            }
        }
    }
}

proof fn lemma_lambda_ids_finite(lambdas: Seq<LambdaView>, i: int, acc: Map<SpanKey, Seq<char>>)
    requires
        acc.dom().finite(),
    ensures
        lambda_ids_from(lambdas, i, acc).dom().finite(),
    decreases lambdas.len() - i,
{
    if 0 <= i < lambdas.len() {
        let lambda = lambdas[i];
        lemma_lambda_ids_finite(
            lambdas,
            i + 1,
            acc.insert(
                SpanKey { file: lambda.file, start: lambda.start, end: lambda.end },
                lambda_id(lambda.path, lambda.start, lambda.end),
            ),
        );
    }
}

/// A graph is shown for one of the files from position `i` on.
spec fn shown_for_file(
    tables: GraphTablesView,
    scope: ControlFlowScope,
    file: FileFacts,
    g: ControlFlowGraphView,
) -> bool {
    wants(scope, file.source_kind) && exists|id: Seq<char>, graph: FlowGraph| #[trigger]
        is_graph_of(tables, file, id, graph) && g == shown_graph(tables, file, id, graph)
}

proof fn lemma_file_graphs(
    tables: GraphTablesView,
    file: FileFacts,
    acc: Seq<ControlFlowGraphView>,
    g: ControlFlowGraphView,
)
    requires
        tables.lambda_ids.dom().finite(),
    ensures
        lambda_graphs_from(
            tables,
            file,
            ascending::<SpanKey>(tables.lambda_ids.dom()),
            0,
            symbol_graphs_from(tables, file, file_symbols(file), 0, acc),
        ).contains(g) <==> acc.contains(g) || exists|id: Seq<char>, graph: FlowGraph| #[trigger]
            is_graph_of(tables, file, id, graph) && g == shown_graph(tables, file, id, graph),
{
    let symbols = file_symbols(file);
    let keys = ascending::<SpanKey>(tables.lambda_ids.dom());
    let first = symbol_graphs_from(tables, file, symbols, 0, acc);
    lemma_ascending::<SpanKey>(tables.lambda_ids.dom());
    lemma_symbol_graphs(tables, file, symbols, 0, acc, g);
    lemma_lambda_graphs(tables, file, keys, 0, first, g);
    if exists|k: int| 0 <= k < symbols.len() && #[trigger] shows_symbol(tables, file, symbols[k], g) {
        let k = choose|k: int|
            0 <= k < symbols.len() && #[trigger] shows_symbol(tables, file, symbols[k], g);
        let s = symbols[k];
        assert(symbols.contains(s));
        symbols_lie_at_paths(file, s);
        assert(declares(file, s));
        assert(is_graph_of(tables, file, tables.ids[s.id], s.graph->Some_0));
    }
    if exists|k: int| 0 <= k < keys.len() && #[trigger] shows_lambda(tables, file, keys[k], g) {
        let k = choose|k: int|
            0 <= k < keys.len() && #[trigger] shows_lambda(tables, file, keys[k], g);
        let key = keys[k];
        assert(keys.to_set().contains(key));
        assert(tables.lambda_ids.contains_key(key));
        assert(is_graph_of(
            tables,
            file,
            tables.lambda_ids[key],
            first_lambda_graph(file.lambdas@, Span { start: key.start, end: key.end })->Some_0,
        ));
    }
    if exists|id: Seq<char>, graph: FlowGraph| #[trigger]
        is_graph_of(tables, file, id, graph) && g == shown_graph(tables, file, id, graph) {
        let (id, graph) = choose|id: Seq<char>, graph: FlowGraph| #[trigger]
            is_graph_of(tables, file, id, graph) && g == shown_graph(tables, file, id, graph);
        if exists|s: SymbolFact| #[trigger]
            declares(file, s) && can_be_called(s) && s.graph == Some(graph)
                && tables.ids.contains_key(s.id) && tables.ids[s.id] == id {
            let s = choose|s: SymbolFact| #[trigger]
                declares(file, s) && can_be_called(s) && s.graph == Some(graph)
                    && tables.ids.contains_key(s.id) && tables.ids[s.id] == id;
            symbols_lie_at_paths(file, s);
            let k = choose|k: int| 0 <= k < symbols.len() && symbols[k] == s;
            assert(shows_symbol(tables, file, symbols[k], g));
        } else {
            let key = choose|k: SpanKey| #[trigger]
                tables.lambda_ids.contains_key(k) && k.file == file.id && tables.lambda_ids[k]
                    == id && first_lambda_graph(
                    file.lambdas@,
                    Span { start: k.start, end: k.end },
                ) == Some(graph);
            assert(keys.to_set().contains(key));
            let k = choose|k: int| 0 <= k < keys.len() && keys[k] == key;
            assert(shows_lambda(tables, file, keys[k], g));
        }
    }
}

proof fn lemma_graphs_from(
    tables: GraphTablesView,
    scope: ControlFlowScope,
    files: Seq<FileFacts>,
    i: int,
    acc: Seq<ControlFlowGraphView>,
    g: ControlFlowGraphView,
)
    requires
        0 <= i,
        tables.lambda_ids.dom().finite(),
    ensures
        graphs_from(tables, scope, files, i, acc).contains(g) <==> acc.contains(g) || exists|
            k: int,
        |
            i <= k < files.len() && #[trigger] shown_for_file(tables, scope, files[k], g),
    decreases files.len() - i,
{
    if i < files.len() {
        let file = files[i];
        lemma_file_graphs(tables, file, acc, g);
        let next = if is_asked(scope, file.source_kind) {
            lambda_graphs_from(
                tables,
                file,
                ascending::<SpanKey>(tables.lambda_ids.dom()),
                0,
                symbol_graphs_from(tables, file, file_symbols(file), 0, acc),
            )
        } else {
            acc
        };
        lemma_graphs_from(tables, scope, files, i + 1, next, g);
        assert(next.contains(g) <==> acc.contains(g) || shown_for_file(tables, scope, files[i], g));
        if exists|k: int|
            i <= k < files.len() && #[trigger] shown_for_file(tables, scope, files[k], g) {
            let k = choose|k: int|
                i <= k < files.len() && #[trigger] shown_for_file(tables, scope, files[k], g);
            if k > i {
                assert(i + 1 <= k < files.len() && shown_for_file(tables, scope, files[k], g));
            }
        }
    }
}

/// A snapshot shows the graph of every callable and of every lambda of the files that are asked
/// for, each as it is given, and no other graph.
pub proof fn asked_graphs_are_shown(facts: ProjectFacts, g: ControlFlowGraphView)
    ensures
        built(facts) matches Ok(snapshot) ==> (snapshot.control_flow_graphs.contains(g)
            <==> exists|i: int, id: Seq<char>, graph: FlowGraph|
            0 <= i < facts.files@.len() && wants(facts.control_flow, facts.files@[i].source_kind)
                && #[trigger] is_graph_of(
                graph_tables_of(
                    files_in_order(facts),
                    names_of(files_in_order(facts), facts.types@),
                ),
                facts.files@[i],
                id,
                graph,
            ) && g == shown_graph(
                graph_tables_of(
                    files_in_order(facts),
                    names_of(files_in_order(facts), facts.types@),
                ),
                facts.files@[i],
                id,
                graph,
            )),
{
    let files = files_in_order(facts);
    let tables = graph_tables_of(files, names_of(files, facts.types@));
    let scope = facts.control_flow;
    lemma_lambda_ids_finite(lambdas_of(files), 0, Map::empty());
    let found = graphs_from(tables, scope, files, 0, Seq::empty());
    lemma_graphs_from(tables, scope, files, 0, Seq::empty(), g);
    sorting_keeps_items::<ControlFlowGraph>(found);
    if found.contains(g) {
        let k = choose|k: int|
            0 <= k < files.len() && #[trigger] shown_for_file(tables, scope, files[k], g);
        let i = lemma_file_given(facts, k);
        let (id, graph) = choose|id: Seq<char>, graph: FlowGraph| #[trigger]
            is_graph_of(tables, files[k], id, graph) && g == shown_graph(
                tables,
                files[k],
                id,
                graph,
            );
        assert(is_graph_of(tables, facts.files@[i], id, graph));
    }
    if exists|i: int, id: Seq<char>, graph: FlowGraph|
        0 <= i < facts.files@.len() && wants(scope, facts.files@[i].source_kind)
            && #[trigger] is_graph_of(tables, facts.files@[i], id, graph) && g == shown_graph(
            tables,
            facts.files@[i],
            id,
            graph,
        ) {
        let (i, id, graph) = choose|i: int, id: Seq<char>, graph: FlowGraph|
            0 <= i < facts.files@.len() && wants(scope, facts.files@[i].source_kind)
                && #[trigger] is_graph_of(tables, facts.files@[i], id, graph) && g == shown_graph(
                tables,
                facts.files@[i],
                id,
                graph,
            );
        let k = lemma_file_in_order(facts, i);
        assert(is_graph_of(tables, files[k], id, graph));
        assert(shown_for_file(tables, scope, files[k], g));
    }
}

} // verus!
