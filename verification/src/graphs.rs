//! The control-flow graphs that a snapshot shows.
use crate::facts::{
    all_global_symbols, file_symbols, is_callable, symbol_pointees, FileFacts, LambdaFact,
    SymbolFact,
};
use crate::flow::{graph_ok, EdgeKind, FlowEdge, FlowGraph, FlowKind, FlowNode};
use crate::ids::{LocalRef, Span, SpanKey, SymbolRef};
use crate::model::{
    AstNode, AstNodeView, ControlFlowEdge, ControlFlowEdgeView, ControlFlowGraph,
    ControlFlowGraphView, ControlFlowNode, ControlFlowNodeView, ControlFlowScope, SourceKind,
};
use crate::references::{find_node_for, node_for};
use crate::scope::text_under;
use crate::sort::{sort_stably, sorting_keeps_items, stable_sorted};
use crate::symbols::span_location;
use crate::tables::{ascending, Table};
use crate::text::{decimal, decimals_differ, push_decimal, views};
use vstd::prelude::*;
use vstd::string::*;

verus! {

broadcast use crate::text::group_views;

/// The tables that graphs are shown with.
pub struct GraphTables<'a> {
    pub ids: &'a Table<SymbolRef, String>,
    pub lambda_ids: &'a Table<SpanKey, String>,
    pub locals: &'a Table<LocalRef, String>,
    pub places: &'a Table<SpanKey, String>,
    pub nodes: &'a Vec<AstNode>,
}

/// The tables that graphs are shown with.
#[verifier::ext_equal]
pub struct GraphTablesView {
    pub ids: Map<SymbolRef, Seq<char>>,
    pub lambda_ids: Map<SpanKey, Seq<char>>,
    pub locals: Map<LocalRef, Seq<char>>,
    pub places: Map<SpanKey, Seq<char>>,
    pub nodes: Seq<AstNodeView>,
}

impl<'a> View for GraphTables<'a> {
    type V = GraphTablesView;

    open spec fn view(&self) -> GraphTablesView {
        GraphTablesView {
            ids: self.ids@,
            lambda_ids: self.lambda_ids@,
            locals: self.locals@,
            places: self.places@,
            nodes: views(self.nodes@),
        }
    }
}

/// The kind of a node in words.
pub open spec fn flow_kind_text(kind: FlowKind) -> Seq<char> {
    match kind {
        FlowKind::Entry => "entry"@,
        FlowKind::Exit => "exit"@,
        FlowKind::Nop => "nop"@,
        FlowKind::Expression => "expression"@,
        FlowKind::Condition => "condition"@,
        FlowKind::Assertion => "assert"@,
        FlowKind::Return => "return"@,
        FlowKind::Throw => "throw"@,
        FlowKind::Break => "break"@,
        FlowKind::Continue => "continue"@,
        FlowKind::MatchPattern => "matchPattern"@,
        FlowKind::CatchBinding => "catchBinding"@,
        FlowKind::Join => "join"@,
    }
}

/// The kind of a node in words.
pub fn control_flow_node_kind(kind: FlowKind) -> (r: &'static str)
    ensures
        r@ == flow_kind_text(kind),
{
    match kind {
        FlowKind::Entry => "entry",
        FlowKind::Exit => "exit",
        FlowKind::Nop => "nop",
        FlowKind::Expression => "expression",
        FlowKind::Condition => "condition",
        FlowKind::Assertion => "assert",
        FlowKind::Return => "return",
        FlowKind::Throw => "throw",
        FlowKind::Break => "break",
        FlowKind::Continue => "continue",
        FlowKind::MatchPattern => "matchPattern",
        FlowKind::CatchBinding => "catchBinding",
        FlowKind::Join => "join",
    }
}

/// The kind of an edge in words.
pub open spec fn edge_kind_text(kind: EdgeKind) -> Seq<char> {
    match kind {
        EdgeKind::Unconditional => "unconditional"@,
        EdgeKind::TrueBranch => "trueBranch"@,
        EdgeKind::FalseBranch => "falseBranch"@,
        EdgeKind::LoopBack => "loopBack"@,
        EdgeKind::Break => "break"@,
        EdgeKind::Continue => "continue"@,
        EdgeKind::Return => "return"@,
        EdgeKind::Throw => "throw"@,
        EdgeKind::Exceptional => "exceptional"@,
    }
}

/// The kind of an edge in words.
pub fn control_flow_edge_kind(kind: EdgeKind) -> (r: &'static str)
    ensures
        r@ == edge_kind_text(kind),
{
    match kind {
        EdgeKind::Unconditional => "unconditional",
        EdgeKind::TrueBranch => "trueBranch",
        EdgeKind::FalseBranch => "falseBranch",
        EdgeKind::LoopBack => "loopBack",
        EdgeKind::Break => "break",
        EdgeKind::Continue => "continue",
        EdgeKind::Return => "return",
        EdgeKind::Throw => "throw",
        EdgeKind::Exceptional => "exceptional",
    }
}

/// The id of a node of the graph of a callable.
pub open spec fn flow_node_id(symbol: Seq<char>, index: nat) -> Seq<char> {
    "cfg:"@ + symbol + ":n:"@ + decimal(index)
}

fn flow_node_id_text(symbol: &str, index: usize) -> (r: String)
    ensures
        r@ == flow_node_id(symbol@, index as nat),
{
    let mut out = "cfg:".to_owned();
    out.append(symbol);
    out.append(":n:");
    push_decimal(&mut out, index as u64);
    out
}

/// The ids of the known locals from position `i` on.
pub open spec fn known_locals_from(
    table: Map<LocalRef, Seq<char>>,
    locals: Seq<LocalRef>,
    i: int,
    acc: Seq<Seq<char>>,
) -> Seq<Seq<char>>
    decreases locals.len() - i,
{
    if 0 <= i < locals.len() {
        let next = match text_under(table, locals[i]) {
            Some(id) => acc.push(id),
            None => acc,
        };
        known_locals_from(table, locals, i + 1, next)
    } else {
        acc
    }
}

/// The ids of the known locals in order.
pub open spec fn known_locals(table: Map<LocalRef, Seq<char>>, locals: Seq<LocalRef>) -> Seq<
    Seq<char>,
> {
    stable_sorted::<String>(known_locals_from(table, locals, 0, Seq::empty()))
}

fn find_known_locals(table: &Table<LocalRef, String>, locals: &Vec<LocalRef>) -> (r: Vec<String>)
    ensures
        views(r@) == known_locals(table@, locals@),
{
    let mut out: Vec<String> = Vec::new();
    let n: usize = locals.len();
    let mut i: usize = 0;
    while i < n
        invariant
            i <= n,
            n == locals@.len(),
            known_locals_from(table@, locals@, 0, Seq::empty()) == known_locals_from(
                table@,
                locals@,
                i as int,
                views(out@),
            ),
        decreases n - i,
    {
        if let Some(id) = table.get(&locals[i]) {
            out.push(id.clone());
        }
        i += 1;
    }
    sort_stably(out)
}

/// A node of the graph of a callable.
pub open spec fn shown_node(
    tables: GraphTablesView,
    file: FileFacts,
    symbol: Seq<char>,
    node: FlowNode,
    index: nat,
) -> ControlFlowNodeView {
    ControlFlowNodeView {
        id: flow_node_id(symbol, index),
        kind: flow_kind_text(node.kind),
        location: match node.span {
            Some(span) => Some(span_location(file, span)),
            None => None,
        },
        ast_node_id: match node.span {
            Some(span) => node_for(tables.places, tables.nodes, file, span),
            None => None,
        },
        reads: known_locals(tables.locals, node.reads@),
        writes: known_locals(tables.locals, node.writes@),
    }
}

/// An edge of the graph of a callable.
pub open spec fn shown_edge(symbol: Seq<char>, edge: FlowEdge) -> ControlFlowEdgeView {
    ControlFlowEdgeView {
        from: flow_node_id(symbol, edge.from as nat),
        to: flow_node_id(symbol, edge.to as nat),
        kind: edge_kind_text(edge.kind),
    }
}

/// The graph of a callable.
pub open spec fn shown_graph(
    tables: GraphTablesView,
    file: FileFacts,
    symbol: Seq<char>,
    graph: FlowGraph,
) -> ControlFlowGraphView {
    ControlFlowGraphView {
        symbol_id: symbol,
        entry: flow_node_id(symbol, graph.entry as nat),
        exit: flow_node_id(symbol, graph.exit as nat),
        nodes: Seq::new(
            graph.nodes@.len(),
            |i: int| shown_node(tables, file, symbol, graph.nodes@[i], i as nat),
        ),
        edges: Seq::new(graph.edges@.len(), |i: int| shown_edge(symbol, graph.edges@[i])),
    }
}

/// A graph has a node of an id.
pub open spec fn has_node(graph: ControlFlowGraphView, id: Seq<char>) -> bool {
    exists|i: int| 0 <= i < graph.nodes.len() && (#[trigger] graph.nodes[i]).id == id
}

/// The entry, the exit and both ends of each edge are nodes of the graph, and its nodes have
/// different ids.
pub open spec fn is_closed(graph: ControlFlowGraphView) -> bool {
    &&& has_node(graph, graph.entry)
    &&& has_node(graph, graph.exit)
    &&& forall|i: int|
        0 <= i < graph.edges.len() ==> has_node(graph, (#[trigger] graph.edges[i]).from)
            && has_node(graph, graph.edges[i].to)
    &&& forall|i: int, j: int|
        0 <= i < j < graph.nodes.len() ==> (#[trigger] graph.nodes[i]).id != (
        #[trigger] graph.nodes[j]).id
}

/// A graph is shown with all of its nodes: nothing in it leads elsewhere.
pub proof fn shown_graph_is_closed(
    tables: GraphTablesView,
    file: FileFacts,
    symbol: Seq<char>,
    graph: FlowGraph,
)
    requires
        graph_ok(graph),
    ensures
        is_closed(shown_graph(tables, file, symbol, graph)),
{
    let shown = shown_graph(tables, file, symbol, graph);
    assert(shown.nodes[graph.entry as int].id == flow_node_id(symbol, graph.entry as nat));
    assert(shown.nodes[graph.exit as int].id == flow_node_id(symbol, graph.exit as nat));
    assert forall|i: int| 0 <= i < graph.edges@.len() implies has_node(
        shown,
        (#[trigger] shown.edges[i]).from,
    ) && has_node(shown, shown.edges[i].to) by {
        let edge = graph.edges@[i];
        assert(shown.nodes[edge.from as int].id == shown.edges[i].from);
        assert(shown.nodes[edge.to as int].id == shown.edges[i].to);
    }
    assert forall|i: int, j: int| 0 <= i < j < graph.nodes@.len() implies (
    #[trigger] shown.nodes[i]).id != (#[trigger] shown.nodes[j]).id by {
        if shown.nodes[i].id == shown.nodes[j].id {
            lemma_flow_node_id(symbol, i as nat, j as nat);
        }
    }
}

proof fn lemma_flow_node_id(symbol: Seq<char>, i: nat, j: nat)
    requires
        flow_node_id(symbol, i) == flow_node_id(symbol, j),
    ensures
        i == j,
{
    let front = "cfg:"@ + symbol + ":n:"@;
    assert((front + decimal(i)).skip(front.len() as int) =~= decimal(i));
    assert((front + decimal(j)).skip(front.len() as int) =~= decimal(j));
    decimals_differ(i, j);
}

proof fn lemma_known_locals(
    table: Map<LocalRef, Seq<char>>,
    locals: Seq<LocalRef>,
    i: int,
    acc: Seq<Seq<char>>,
    id: Seq<char>,
)
    requires
        acc.contains(id) ==> exists|l: LocalRef| table.contains_key(l) && #[trigger] table[l] == id,
    ensures
        known_locals_from(table, locals, i, acc).contains(id) ==> exists|l: LocalRef|
            table.contains_key(l) && #[trigger] table[l] == id,
    decreases locals.len() - i,
{
    if 0 <= i < locals.len() {
        let next = match text_under(table, locals[i]) {
            Some(known) => acc.push(known),
            None => acc,
        };
        if next.contains(id) && !acc.contains(id) {
            assert(table.contains_key(locals[i]) && table[locals[i]] == id) by {
                let k = next.index_of(id);
                if k < acc.len() {
                    assert(acc[k] == id);
                }
            }
        }
        lemma_known_locals(table, locals, i + 1, next, id);
    }
}

/// What a node of a graph reads and writes are locals that the snapshot knows.
pub proof fn accesses_are_locals(
    tables: GraphTablesView,
    file: FileFacts,
    symbol: Seq<char>,
    node: FlowNode,
    index: nat,
    id: Seq<char>,
)
    ensures
        shown_node(tables, file, symbol, node, index).reads.contains(id) || shown_node(
            tables,
            file,
            symbol,
            node,
            index,
        ).writes.contains(id) ==> exists|l: LocalRef|
            tables.locals.contains_key(l) && #[trigger] tables.locals[l] == id,
{
    lemma_known_locals(tables.locals, node.reads@, 0, Seq::empty(), id);
    lemma_known_locals(tables.locals, node.writes@, 0, Seq::empty(), id);
    sorting_keeps_items::<String>(known_locals_from(tables.locals, node.reads@, 0, Seq::empty()));
    sorting_keeps_items::<String>(known_locals_from(tables.locals, node.writes@, 0, Seq::empty()));
}

/// The graph of the first lambda from position `i` on at a span.
pub open spec fn lambda_graph_from(lambdas: Seq<LambdaFact>, span: Span, i: int) -> Option<
    FlowGraph,
>
    decreases lambdas.len() - i,
{
    if 0 <= i < lambdas.len() {
        if lambdas[i].span == span {
            lambdas[i].graph
        } else {
            lambda_graph_from(lambdas, span, i + 1)
        }
    } else {
        None
    }
}

/// The graph of the lambda at a span.
pub fn lambda_cfg<'a>(file: &'a FileFacts, span: Span) -> (r: Option<&'a FlowGraph>)
    ensures
        r is Some <==> lambda_graph_from(file.lambdas@, span, 0) is Some,
        r matches Some(graph) ==> lambda_graph_from(file.lambdas@, span, 0) == Some(*graph),
{
    let n: usize = file.lambdas.len();
    let mut i: usize = 0;
    while i < n
        invariant
            i <= n,
            n == file.lambdas@.len(),
            lambda_graph_from(file.lambdas@, span, 0) == lambda_graph_from(
                file.lambdas@,
                span,
                i as int,
            ),
        decreases n - i,
    {
        let fact = &file.lambdas[i];
        if fact.span.start == span.start && fact.span.end == span.end {
            return match &fact.graph {
                Some(graph) => Some(graph),
                None => None,
            };
        }
        i += 1;
    }
    None
}

/// The graphs of the callable symbols from position `i` on.
pub open spec fn symbol_graphs_from(
    tables: GraphTablesView,
    file: FileFacts,
    symbols: Seq<SymbolFact>,
    i: int,
    acc: Seq<ControlFlowGraphView>,
) -> Seq<ControlFlowGraphView>
    decreases symbols.len() - i,
{
    if 0 <= i < symbols.len() {
        let symbol = symbols[i];
        let next = match (text_under(tables.ids, symbol.id), symbol.graph) {
            (Some(id), Some(graph)) => if is_callable(symbol) {
                acc.push(shown_graph(tables, file, id, graph))
            } else {
                acc
            },
            _ => acc,
        };
        symbol_graphs_from(tables, file, symbols, i + 1, next)
    } else {
        acc
    }
}

/// The graphs of the lambdas of a file from position `i` on.
pub open spec fn lambda_graphs_from(
    tables: GraphTablesView,
    file: FileFacts,
    keys: Seq<SpanKey>,
    i: int,
    acc: Seq<ControlFlowGraphView>,
) -> Seq<ControlFlowGraphView>
    decreases keys.len() - i,
{
    if 0 <= i < keys.len() {
        let key = keys[i];
        let next = if key.file == file.id {
            match lambda_graph_from(
                file.lambdas@,
                Span { start: key.start, end: key.end },
                0,
            ) {
                Some(graph) => acc.push(shown_graph(tables, file, tables.lambda_ids[key], graph)),
                None => acc,
            }
        } else {
            acc
        };
        lambda_graphs_from(tables, file, keys, i + 1, next)
    } else {
        acc
    }
}

/// Whether the graphs of a file are asked for.
pub open spec fn is_asked(scope: ControlFlowScope, kind: SourceKind) -> bool {
    match scope {
        ControlFlowScope::Off => false,
        ControlFlowScope::Workspace => kind is Workspace,
        ControlFlowScope::All => true,
    }
}

/// The graphs of the files from position `i` on.
pub open spec fn graphs_from(
    tables: GraphTablesView,
    scope: ControlFlowScope,
    files: Seq<FileFacts>,
    i: int,
    acc: Seq<ControlFlowGraphView>,
) -> Seq<ControlFlowGraphView>
    decreases files.len() - i,
{
    if 0 <= i < files.len() {
        let file = files[i];
        let next = if is_asked(scope, file.source_kind) {
            lambda_graphs_from(
                tables,
                file,
                ascending::<SpanKey>(tables.lambda_ids.dom()),
                0,
                symbol_graphs_from(tables, file, file_symbols(file), 0, acc),
            )
        } else {
            acc
        };
        graphs_from(tables, scope, files, i + 1, next)
    } else {
        acc
    }
}

/// The graphs of a project in the order of their callables.
pub open spec fn project_graphs(
    tables: GraphTablesView,
    scope: ControlFlowScope,
    files: Seq<FileFacts>,
) -> Seq<ControlFlowGraphView> {
    stable_sorted::<ControlFlowGraph>(graphs_from(tables, scope, files, 0, Seq::empty()))
}

impl<'a> GraphTables<'a> {
    fn show_node(&self, file: &FileFacts, symbol: &str, node: &FlowNode, index: usize) -> (r:
        ControlFlowNode)
        ensures
            r@ == shown_node(self@, *file, symbol@, *node, index as nat),
    {
        ControlFlowNode {
            id: flow_node_id_text(symbol, index),
            kind: control_flow_node_kind(node.kind).to_owned(),
            location: match node.span {
                Some(span) => Some(file.location(span)),
                None => None,
            },
            ast_node_id: match node.span {
                Some(span) => find_node_for(self.places, self.nodes, file, span),
                None => None,
            },
            reads: find_known_locals(self.locals, &node.reads),
            writes: find_known_locals(self.locals, &node.writes),
        }
    }

    /// The graph of a callable.
    pub fn convert_control_flow_graph(
        &self,
        file: &FileFacts,
        symbol: &String,
        graph: &FlowGraph,
    ) -> (r: ControlFlowGraph)
        ensures
            r@ == shown_graph(self@, *file, symbol@, *graph),
    {
        let ghost goal = shown_graph(self@, *file, symbol@, *graph);
        let n: usize = graph.nodes.len();
        let mut nodes: Vec<ControlFlowNode> = Vec::new();
        let mut i: usize = 0;
        while i < n
            invariant
                i <= n,
                n == graph.nodes@.len(),
                goal == shown_graph(self@, *file, symbol@, *graph),
                nodes@.len() == i,
                forall|j: int| 0 <= j < i ==> (#[trigger] nodes@[j])@ == goal.nodes[j],
            decreases n - i,
        {
            nodes.push(self.show_node(file, symbol.as_str(), &graph.nodes[i], i));
            i += 1;
        }
        let m: usize = graph.edges.len();
        let mut edges: Vec<ControlFlowEdge> = Vec::new();
        let mut k: usize = 0;
        while k < m
            invariant
                k <= m,
                m == graph.edges@.len(),
                goal == shown_graph(self@, *file, symbol@, *graph),
                edges@.len() == k,
                forall|j: int| 0 <= j < k ==> (#[trigger] edges@[j])@ == goal.edges[j],
            decreases m - k,
        {
            let edge = &graph.edges[k];
            edges.push(
                ControlFlowEdge {
                    from: flow_node_id_text(symbol.as_str(), edge.from),
                    to: flow_node_id_text(symbol.as_str(), edge.to),
                    kind: control_flow_edge_kind(edge.kind).to_owned(),
                },
            );
            k += 1;
        }
        assert(views(nodes@) =~= goal.nodes);
        assert(views(edges@) =~= goal.edges);
        ControlFlowGraph {
            symbol_id: symbol.clone(),
            entry: flow_node_id_text(symbol.as_str(), graph.entry),
            exit: flow_node_id_text(symbol.as_str(), graph.exit),
            nodes,
            edges,
        }
    }

    fn add_symbol_graphs(&self, file: &FileFacts, out: &mut Vec<ControlFlowGraph>)
        ensures
            views(final(out)@) == symbol_graphs_from(
                self@,
                *file,
                file_symbols(*file),
                0,
                views(old(out)@),
            ),
    {
        let symbols = all_global_symbols(file);
        let ghost all = symbol_pointees(symbols@);
        let ghost start = views(out@);
        let n: usize = symbols.len();
        let mut i: usize = 0;
        while i < n
            invariant
                i <= n,
                n == symbols@.len(),
                all == symbol_pointees(symbols@),
                symbol_graphs_from(self@, *file, all, 0, start) == symbol_graphs_from(
                    self@,
                    *file,
                    all,
                    i as int,
                    views(out@),
                ),
            decreases n - i,
        {
            let symbol = symbols[i];
            assert(all[i as int] == *symbol);
            if symbol.is_callable() {
                match (self.ids.get(&symbol.id), &symbol.graph) {
                    (Some(id), Some(graph)) => {
                        out.push(self.convert_control_flow_graph(file, id, graph));
                    },
                    _ => {},
                }
            }
            i += 1;
        }
    }

    fn add_lambda_graphs(&self, file: &FileFacts, out: &mut Vec<ControlFlowGraph>)
        ensures
            views(final(out)@) == lambda_graphs_from(
                self@,
                *file,
                ascending::<SpanKey>(self.lambda_ids@.dom()),
                0,
                views(old(out)@),
            ),
    {
        let n: usize = self.lambda_ids.len();
        let ghost keys = self.lambda_ids.sequence();
        let ghost start = views(out@);
        let mut i: usize = 0;
        while i < n
            invariant
                i <= n,
                n == keys.len(),
                keys == self.lambda_ids.sequence(),
                lambda_graphs_from(self@, *file, keys, 0, start) == lambda_graphs_from(
                    self@,
                    *file,
                    keys,
                    i as int,
                    views(out@),
                ),
            decreases n - i,
        {
            let key = self.lambda_ids.key_at(i);
            let id = self.lambda_ids.value_at(i);
            if key.file == file.id {
                let span = Span { start: key.start, end: key.end };
                if let Some(graph) = lambda_cfg(file, span) {
                    out.push(self.convert_control_flow_graph(file, id, graph));
                }
            }
            i += 1;
        }
    }

    /// The graphs of a project in the order of their callables.
    pub fn collect_control_flow_graphs(
        &self,
        scope: ControlFlowScope,
        files: &Vec<FileFacts>,
    ) -> (r: Vec<ControlFlowGraph>)
        ensures
            views(r@) == project_graphs(self@, scope, files@),
    {
        let mut out: Vec<ControlFlowGraph> = Vec::new();
        let n: usize = files.len();
        let mut i: usize = 0;
        while i < n
            invariant
                i <= n,
                n == files@.len(),
                graphs_from(self@, scope, files@, 0, Seq::empty()) == graphs_from(
                    self@,
                    scope,
                    files@,
                    i as int,
                    views(out@),
                ),
            decreases n - i,
        {
            let file = &files[i];
            let asked = match (scope, file.source_kind) {
                (ControlFlowScope::Off, _) => false,
                (ControlFlowScope::Workspace, SourceKind::Workspace) => true,
                (ControlFlowScope::Workspace, _) => false,
                (ControlFlowScope::All, _) => true,
            };
            if asked {
                self.add_symbol_graphs(file, &mut out);
                self.add_lambda_graphs(file, &mut out);
            }
            i += 1;
        }
        sort_stably(out)
    }
}

} // verus!
