//! Laws of the call graph.
use crate::calls::{
    call_graph_has_each_target, call_graph_of, calls_edge, edge_of, edges_of, has_edge,
};
use crate::facts::ProjectFacts;
use crate::inspect::built;
use crate::model::{CallEdge, CallEdgeView, CallSiteView};
use crate::order::Keyed;
use crate::sort::{
    dropping_repeats_adds_nothing, sorting_keeps_items, sorting_orders_and_permutes, stable_sorted,
};
use vstd::prelude::*;

verus! {

/// An edge leads from the caller of a call site to one of its targets, and says where and how.
pub open spec fn is_edge_of(edge: CallEdgeView, site: CallSiteView, target: Seq<char>) -> bool {
    &&& edge.caller == site.caller
    &&& edge.callee == target
    &&& edge.call_site == site.location
    &&& edge.node_id == site.node_id
    &&& edge.dispatch == site.dispatch
}

/// Two edges lead from the same place in the same caller to the same callee in the same way.
pub open spec fn is_same_call(edge: CallEdgeView, site: CallSiteView, target: Seq<char>) -> bool {
    &&& edge.caller == site.caller
    &&& edge.callee == target
    &&& edge.call_site.path == site.location.path
    &&& edge.call_site.byte_range == site.location.byte_range
    &&& edge.dispatch == site.dispatch
}

/// A call site has an edge to one of its targets.
pub open spec fn stems_from(edge: CallEdgeView, sites: Seq<CallSiteView>) -> bool {
    exists|i: int, j: int|
        0 <= i < sites.len() && 0 <= j < sites[i].targets.len() && is_edge_of(
            edge,
            #[trigger] sites[i],
            #[trigger] sites[i].targets[j],
        )
}

proof fn lemma_edges_stem(sites: Seq<CallSiteView>, e: CallEdgeView)
    requires
        edges_of(sites).contains(e),
    ensures
        stems_from(e, sites),
    decreases sites.len(),
{
    let rest = sites.drop_last();
    let site = sites.last();
    let more = site.targets.map_values(|t: Seq<char>| edge_of(site, t));
    let all = edges_of(sites);
    let k = choose|k: int| 0 <= k < all.len() && all[k] == e;
    let n = edges_of(rest).len();
    if k < n {
        assert(edges_of(rest)[k] == e);
        lemma_edges_stem(rest, e);
        let (i, j) = choose|i: int, j: int|
            0 <= i < rest.len() && 0 <= j < rest[i].targets.len() && is_edge_of(
                e,
                #[trigger] rest[i],
                #[trigger] rest[i].targets[j],
            );
        assert(sites[i] == rest[i]);
        assert(is_edge_of(e, sites[i], sites[i].targets[j]));
    } else {
        let i = sites.len() - 1;
        assert(more[k - n] == e);
        assert(is_edge_of(e, sites[i], sites[i].targets[k - n]));
    }
}

/// Each edge of a call graph leads from the caller of a call site to one of its targets, and for
/// each target of a call site there is such an edge.
pub proof fn edges_lead_to_targets(sites: Seq<CallSiteView>)
    ensures
        forall|e: CallEdgeView| #[trigger]
            call_graph_of(sites).contains(e) ==> stems_from(e, sites),
        forall|i: int, j: int|
            0 <= i < sites.len() && 0 <= j < sites[i].targets.len() ==> exists|k: int|
                0 <= k < call_graph_of(sites).len() && is_same_call(
                    #[trigger] call_graph_of(sites)[k],
                    #[trigger] sites[i],
                    #[trigger] sites[i].targets[j],
                ),
{
    let edges = edges_of(sites);
    let sorted = stable_sorted::<CallEdge>(edges);
    let all = call_graph_of(sites);
    sorting_orders_and_permutes::<CallEdge>(edges);
    sorting_keeps_items::<CallEdge>(edges);
    assert forall|e: CallEdgeView| #[trigger] all.contains(e) implies stems_from(e, sites) by {
        dropping_repeats_adds_nothing::<CallEdge>(sorted, e);
        assert(sorted.contains(e));
        assert(edges.contains(e));
        lemma_edges_stem(sites, e);
    }
    assert forall|i: int, j: int|
        0 <= i < sites.len() && 0 <= j < sites[i].targets.len() implies exists|k: int|
        0 <= k < all.len() && is_same_call(
            #[trigger] all[k],
            #[trigger] sites[i],
            #[trigger] sites[i].targets[j],
        ) by {
        let made = edge_of(sites[i], sites[i].targets[j]);
        let key = CallEdge::key_view(made);
        call_graph_has_each_target(sites, key);
        assert(calls_edge(sites, key));
        assert(has_edge(all, key));
        let k = choose|k: int| 0 <= k < all.len() && CallEdge::key_view(#[trigger] all[k]) == key;
        let other = CallEdge::key_view(all[k]);
        assert(other[0] == key[0] && other[1] == key[1] && other[2] == key[2]);
        assert(other[3] == key[3] && other[4] == key[4] && other[5] == key[5]);
        assert(is_same_call(all[k], sites[i], sites[i].targets[j]));
    }
}

/// The edges of the call graph of a project lead from its call sites to their targets.
pub proof fn project_edges_lead_to_targets(facts: ProjectFacts)
    ensures
        built(facts) matches Ok(snapshot) ==> {
            &&& forall|e: CallEdgeView| #[trigger]
                snapshot.call_graph.contains(e) ==> stems_from(e, snapshot.call_sites)
            &&& forall|i: int, j: int|
                0 <= i < snapshot.call_sites.len() && 0 <= j
                    < snapshot.call_sites[i].targets.len() ==> exists|k: int|
                    0 <= k < snapshot.call_graph.len() && is_same_call(
                        #[trigger] snapshot.call_graph[k],
                        #[trigger] snapshot.call_sites[i],
                        #[trigger] snapshot.call_sites[i].targets[j],
                    )
        },
{
    match built(facts) {
        Ok(snapshot) => {
            assert(snapshot.call_graph == call_graph_of(snapshot.call_sites));
            edges_lead_to_targets(snapshot.call_sites);
        },
        Err(_) => {},
    }
}

} // verus!
