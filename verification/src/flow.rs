//! Control-flow graphs.
use crate::ids::{LocalRef, Span};
use vstd::prelude::*;

verus! {

/// What a node of a control-flow graph stands for.
#[derive(Debug, Clone, Copy, PartialEq, Eq, Structural)]
pub enum FlowKind {
    Entry,
    Exit,
    Nop,
    Expression,
    Condition,
    Assertion,
    Return,
    Throw,
    Break,
    Continue,
    MatchPattern,
    CatchBinding,
    Join,
}

/// Why control passes along an edge.
#[derive(Debug, Clone, Copy, PartialEq, Eq, Structural)]
pub enum EdgeKind {
    Unconditional,
    TrueBranch,
    FalseBranch,
    LoopBack,
    Break,
    Continue,
    Return,
    Throw,
    Exceptional,
}

/// A node of a control-flow graph, known by its position.
#[derive(Debug)]
pub struct FlowNode {
    pub kind: FlowKind,
    pub span: Option<Span>,
    pub reads: Vec<LocalRef>,
    pub writes: Vec<LocalRef>,
}

#[derive(Debug, Clone, Copy)]
pub struct FlowEdge {
    pub from: usize,
    pub to: usize,
    pub kind: EdgeKind,
}

/// The control-flow graph of one callable.
#[derive(Debug)]
pub struct FlowGraph {
    pub nodes: Vec<FlowNode>,
    pub edges: Vec<FlowEdge>,
    pub entry: usize,
    pub exit: usize,
    /// Every local that occurs in the graph.
    pub locals: Vec<LocalRef>,
}

/// Entry, exit and the ends of edges are nodes of the graph.
pub open spec fn graph_ok(graph: FlowGraph) -> bool {
    &&& graph.entry < graph.nodes@.len()
    &&& graph.exit < graph.nodes@.len()
    &&& forall|i: int|
        0 <= i < graph.edges@.len() ==> (#[trigger] graph.edges@[i]).from < graph.nodes@.len()
            && graph.edges@[i].to < graph.nodes@.len()
}

impl FlowGraph {
    /// Whether entry, exit and the ends of edges are nodes of the graph.
    pub fn is_ok(&self) -> (r: bool)
        ensures
            r == graph_ok(*self),
    {
        let n: usize = self.nodes.len();
        if self.entry >= n || self.exit >= n {
            return false;
        }
        let m: usize = self.edges.len();
        let mut i: usize = 0;
        while i < m
            invariant
                i <= m,
                m == self.edges@.len(),
                n == self.nodes@.len(),
                forall|j: int|
                    0 <= j < i ==> (#[trigger] self.edges@[j]).from < n && self.edges@[j].to < n,
            decreases m - i,
        {
            if self.edges[i].from >= n || self.edges[i].to >= n {
                assert(!graph_ok(*self)) by {
                    assert(self.edges@[i as int].from >= n || self.edges@[i as int].to >= n);
                }
                return false;
            }
            i += 1;
        }
        true
    }
}

/// The span of a node encloses another.
pub open spec fn encloses(outer: Option<Span>, span: Span) -> bool {
    outer matches Some(s) && s.start <= span.start && s.end >= span.end
}

/// The length of a span.
pub open spec fn span_length(s: Span) -> int {
    s.end - s.start
}

/// The first of the shortest enclosing nodes from position `i` on, or `best`.
pub open spec fn enclosing_from(
    nodes: Seq<FlowNode>,
    span: Span,
    i: int,
    best: Option<int>,
) -> Option<int>
    decreases nodes.len() - i,
{
    if 0 <= i < nodes.len() {
        let next = if encloses(nodes[i].span, span) && (best matches Some(b) ==> span_length(
            nodes[i].span->Some_0,
        ) < span_length(nodes[b].span->Some_0)) {
            Some(i)
        } else {
            best
        };
        enclosing_from(nodes, span, i + 1, next)
    } else {
        best
    }
}

/// The node of a graph that holds a span most closely.
pub open spec fn enclosing_node(graph: FlowGraph, span: Span) -> Option<int> {
    enclosing_from(graph.nodes@, span, 0, None)
}

/// The node that holds a span most closely encloses it, and no enclosing node is shorter.
pub proof fn enclosing_is_shortest(graph: FlowGraph, span: Span)
    ensures
        match enclosing_node(graph, span) {
            Some(at) => {
                &&& 0 <= at < graph.nodes@.len()
                &&& encloses(graph.nodes@[at].span, span)
                &&& forall|j: int|
                    0 <= j < graph.nodes@.len() && encloses(
                        (#[trigger] graph.nodes@[j]).span,
                        span,
                    ) ==> span_length(graph.nodes@[at].span->Some_0) <= span_length(
                        graph.nodes@[j].span->Some_0,
                    )
            },
            None => forall|j: int|
                0 <= j < graph.nodes@.len() ==> !encloses((#[trigger] graph.nodes@[j]).span, span),
        },
{
    lemma_enclosing_from(graph.nodes@, span, 0, None);
}

proof fn lemma_enclosing_from(nodes: Seq<FlowNode>, span: Span, i: int, best: Option<int>)
    requires
        0 <= i <= nodes.len(),
        match best {
            Some(at) => {
                &&& 0 <= at < i
                &&& encloses(nodes[at].span, span)
                &&& forall|j: int|
                    0 <= j < i && encloses((#[trigger] nodes[j]).span, span) ==> span_length(
                        nodes[at].span->Some_0,
                    ) <= span_length(nodes[j].span->Some_0)
            },
            None => forall|j: int| 0 <= j < i ==> !encloses((#[trigger] nodes[j]).span, span),
        },
    ensures
        match enclosing_from(nodes, span, i, best) {
            Some(at) => {
                &&& 0 <= at < nodes.len()
                &&& encloses(nodes[at].span, span)
                &&& forall|j: int|
                    0 <= j < nodes.len() && encloses((#[trigger] nodes[j]).span, span)
                        ==> span_length(nodes[at].span->Some_0) <= span_length(
                        nodes[j].span->Some_0,
                    )
            },
            None => forall|j: int|
                0 <= j < nodes.len() ==> !encloses((#[trigger] nodes[j]).span, span),
        },
    decreases nodes.len() - i,
{
    if i < nodes.len() {
        let next = if encloses(nodes[i].span, span) && (best matches Some(b) ==> span_length(
            nodes[i].span->Some_0,
        ) < span_length(nodes[b].span->Some_0)) {
            Some(i)
        } else {
            best
        };
        lemma_enclosing_from(nodes, span, i + 1, next);
    }
}

fn shorter_span(a: Span, b: Span) -> (r: bool)
    ensures
        r == (span_length(a) < span_length(b)),
{
    (a.end as i64) - (a.start as i64) < (b.end as i64) - (b.start as i64)
}

/// The node of a graph that holds a span most closely.
pub fn containing_flow_node(graph: &FlowGraph, span: Span) -> (r: Option<usize>)
    ensures
        match r {
            Some(at) => enclosing_node(*graph, span) == Some(at as int) && at < graph.nodes@.len(),
            None => enclosing_node(*graph, span) is None,
        },
{
    let n: usize = graph.nodes.len();
    let mut best: Option<(usize, Span)> = None;
    let mut i: usize = 0;
    while i < n
        invariant
            i <= n,
            n == graph.nodes@.len(),
            enclosing_node(*graph, span) == enclosing_from(
                graph.nodes@,
                span,
                i as int,
                match best {
                    Some((at, _)) => Some(at as int),
                    None => None,
                },
            ),
            best matches Some((at, s)) ==> at < n && graph.nodes@[at as int].span == Some(s),
        decreases n - i,
    {
        match graph.nodes[i].span {
            Some(s) => {
                if s.start <= span.start && s.end >= span.end {
                    let better = match best {
                        Some((_, b)) => shorter_span(s, b),
                        None => true,
                    };
                    if better {
                        best = Some((i, s));
                    }
                }
            },
            None => {},
        }
        i += 1;
    }
    match best {
        Some((at, _)) => Some(at),
        None => None,
    }
}

} // verus!
