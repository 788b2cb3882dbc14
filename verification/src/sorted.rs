//! Laws of the order in which a snapshot lists what it holds.
use crate::calls::{call_graph_has_each_target, call_graph_of};
use crate::constants::{constant_values, values_from};
use crate::facts::FileFacts;
use crate::graphs::{graphs_from, project_graphs, GraphTablesView};
use crate::ids::SymbolRef;
use crate::lambdas::{lambda_infos_from, owned_by_lambda, symbols_with_lambdas, LambdaView};
use crate::model::{
    CallEdge, CallEdgeView, CallSiteView, ControlFlowGraph, ControlFlowScope, Diagnostic,
    DiagnosticView, SymbolConstantValue, SymbolInfo, SymbolInfoView,
};
use crate::order::{key_before, Keyed, PartView};
use crate::sort::{sorting_orders_and_permutes, stable_sorted};
use crate::text::text_before;
use vstd::prelude::*;

verus! {

/// A place in a file comes before another: in a file before it, or earlier in the same one.
pub open spec fn place_before(a: Seq<char>, m: u32, b: Seq<char>, n: u32) -> bool {
    text_before(a, b) || a == b && m < n
}

/// An edge comes before another: by the place of the call, then by the caller, the callee and
/// the dispatch.
pub open spec fn edge_before(a: CallEdgeView, b: CallEdgeView) -> bool {
    let s = a.call_site;
    let t = b.call_site;
    ||| place_before(s.path, s.byte_range.start, t.path, t.byte_range.start)
    ||| s.path == t.path && s.byte_range.start == t.byte_range.start && {
        ||| s.byte_range.end < t.byte_range.end
        ||| s.byte_range.end == t.byte_range.end && {
            ||| text_before(a.caller, b.caller)
            ||| a.caller == b.caller && {
                ||| text_before(a.callee, b.callee)
                ||| a.callee == b.callee && text_before(a.dispatch, b.dispatch)
            }
        }
    }
}

proof fn lemma_one_text(a: Seq<char>, b: Seq<char>)
    ensures
        key_before(seq![PartView::Text(a)], seq![PartView::Text(b)]) <==> text_before(a, b),
{
    reveal_with_fuel(key_before, 2);
    assert(seq![PartView::Text(a)].drop_first().len() == 0);
    assert(seq![PartView::Text(b)].drop_first().len() == 0);
}

proof fn lemma_edge_key(a: CallEdgeView, b: CallEdgeView)
    ensures
        key_before(CallEdge::key_view(a), CallEdge::key_view(b)) <==> edge_before(a, b),
{
    reveal_with_fuel(key_before, 7);
    let x = CallEdge::key_view(a);
    let y = CallEdge::key_view(b);
    assert(x.drop_first().drop_first().drop_first().drop_first().drop_first().drop_first().len()
        == 0);
    assert(y.drop_first().drop_first().drop_first().drop_first().drop_first().drop_first().len()
        == 0);
}

proof fn lemma_diagnostic_key(a: DiagnosticView, b: DiagnosticView)
    requires
        a.location is Some,
        b.location is Some,
    ensures
        key_before(Diagnostic::key_view(a), Diagnostic::key_view(b)) <==> {
            let s = a.location->Some_0;
            let t = b.location->Some_0;
            ||| place_before(s.path, s.byte_range.start, t.path, t.byte_range.start)
            ||| s.path == t.path && s.byte_range.start == t.byte_range.start && text_before(
                a.message,
                b.message,
            )
        },
{
    reveal_with_fuel(key_before, 4);
    let x = Diagnostic::key_view(a);
    let y = Diagnostic::key_view(b);
    assert(x.drop_first().drop_first().drop_first().len() == 0);
    assert(y.drop_first().drop_first().drop_first().len() == 0);
}

/// Symbols are listed by their ids.
pub proof fn symbols_go_by_id(
    files: Seq<FileFacts>,
    symbols: Seq<SymbolInfoView>,
    lambdas: Seq<LambdaView>,
    ids: Map<SymbolRef, Seq<char>>,
    i: int,
    j: int,
)
    requires
        0 <= i < j < symbols_with_lambdas(files, symbols, lambdas, ids).len(),
    ensures
        ({
            let all = symbols_with_lambdas(files, symbols, lambdas, ids);
            !text_before(all[j].id, all[i].id)
        }),
{
    let infos = lambda_infos_from(files, symbols, lambdas, ids, 0, Seq::empty());
    let owned = symbols.map_values(
        |s: SymbolInfoView| owned_by_lambda(infos, s),
    );
    let all = symbols_with_lambdas(files, symbols, lambdas, ids);
    sorting_orders_and_permutes::<SymbolInfo>(owned + infos);
    lemma_one_text(all[j].id, all[i].id);
}

/// The values of constants are listed by the ids of their symbols.
pub proof fn constants_go_by_id(
    files: Seq<FileFacts>,
    ids: Map<SymbolRef, Seq<char>>,
    i: int,
    j: int,
)
    requires
        0 <= i < j < constant_values(files, ids).len(),
    ensures
        !text_before(
            constant_values(files, ids)[j].symbol_id,
            constant_values(files, ids)[i].symbol_id,
        ),
{
    let all = constant_values(files, ids);
    sorting_orders_and_permutes::<SymbolConstantValue>(
        values_from(files, ids, 0, Seq::empty()),
    );
    lemma_one_text(all[j].symbol_id, all[i].symbol_id);
}

/// Control-flow graphs are listed by the ids of their symbols.
pub proof fn graphs_go_by_id(
    tables: GraphTablesView,
    scope: ControlFlowScope,
    files: Seq<FileFacts>,
    i: int,
    j: int,
)
    requires
        0 <= i < j < project_graphs(tables, scope, files).len(),
    ensures
        !text_before(
            project_graphs(tables, scope, files)[j].symbol_id,
            project_graphs(tables, scope, files)[i].symbol_id,
        ),
{
    let all = project_graphs(tables, scope, files);
    sorting_orders_and_permutes::<ControlFlowGraph>(
        graphs_from(tables, scope, files, 0, Seq::empty()),
    );
    lemma_one_text(all[j].symbol_id, all[i].symbol_id);
}

/// The edges of a call graph are listed by the places of their calls, then by the caller, the
/// callee and the dispatch, and no two are the same in all of these.
pub proof fn edges_go_by_place(sites: Seq<CallSiteView>, i: int, j: int)
    requires
        0 <= i < j < call_graph_of(sites).len(),
    ensures
        edge_before(call_graph_of(sites)[i], call_graph_of(sites)[j]),
{
    let all = call_graph_of(sites);
    call_graph_has_each_target(sites, Seq::empty());
    assert(key_before(CallEdge::key_view(all[i]), CallEdge::key_view(all[j])));
    lemma_edge_key(all[i], all[j]);
}

/// Diagnostics with a place are listed by it, and those at one place by what they say.
pub proof fn diagnostics_go_by_place(found: Seq<DiagnosticView>, i: int, j: int)
    requires
        0 <= i < j < stable_sorted::<Diagnostic>(found).len(),
        stable_sorted::<Diagnostic>(found)[i].location is Some,
        stable_sorted::<Diagnostic>(found)[j].location is Some,
    ensures
        ({
            let a = stable_sorted::<Diagnostic>(found)[i];
            let b = stable_sorted::<Diagnostic>(found)[j];
            let s = a.location->Some_0;
            let t = b.location->Some_0;
            &&& !place_before(t.path, t.byte_range.start, s.path, s.byte_range.start)
            &&& s.path == t.path && s.byte_range.start == t.byte_range.start ==> !text_before(
                b.message,
                a.message,
            )
        }),
{
    sorting_orders_and_permutes::<Diagnostic>(found);
    let all = stable_sorted::<Diagnostic>(found);
    lemma_diagnostic_key(all[j], all[i]);
}

} // verus!
