//! Keys made of texts and numbers, and the lists that are sorted by them.
use crate::model::{
    CallEdge, CallEdgeView, CallSite, CallSiteView, ControlFlowGraph, ControlFlowGraphView,
    Diagnostic, DiagnosticView, NodeType, NodeTypeView, Reference, ReferenceView, Resolution,
    ResolutionView, SymbolConstantValue, SymbolConstantValueView, SymbolInfo, SymbolInfoView,
};
use crate::sort::Ranked;
use crate::text::{lemma_text_order, rank_number, rank_text, text_before, Rank};
use vstd::prelude::*;
use vstd::string::*;

verus! {

/// One part of a key.
pub enum PartView {
    Number(u32),
    Text(Seq<char>),
}

/// One part of a key.
#[derive(Debug, Clone, Copy)]
pub enum Part<'a> {
    Number(u32),
    Text(&'a str),
}

impl<'a> View for Part<'a> {
    type V = PartView;

    open spec fn view(&self) -> PartView {
        match *self {
            Part::Number(n) => PartView::Number(n),
            Part::Text(t) => PartView::Text(t@),
        }
    }
}

/// Numbers in their order, then texts in theirs.
pub open spec fn part_before(a: PartView, b: PartView) -> bool {
    match (a, b) {
        (PartView::Number(m), PartView::Number(n)) => m < n,
        (PartView::Number(_), PartView::Text(_)) => true,
        (PartView::Text(_), PartView::Number(_)) => false,
        (PartView::Text(s), PartView::Text(t)) => text_before(s, t),
    }
}

/// Keys in the order of their first parts that differ.
pub open spec fn key_before(a: Seq<PartView>, b: Seq<PartView>) -> bool
    decreases a.len(),
{
    if b.len() == 0 {
        false
    } else if a.len() == 0 {
        true
    } else {
        part_before(a[0], b[0]) || (a[0] == b[0] && key_before(a.drop_first(), b.drop_first()))
    }
}

proof fn lemma_part_order(a: PartView, b: PartView, c: PartView)
    ensures
        a == b || part_before(a, b) || part_before(b, a),
        !(part_before(a, b) && part_before(b, a)),
        !part_before(a, a),
        part_before(a, b) && part_before(b, c) ==> part_before(a, c),
{
    match (a, b) {
        (PartView::Text(s), PartView::Text(t)) => match c {
            PartView::Text(u) => {
                lemma_text_order(s, t, u);
            },
            _ => {
                lemma_text_order(s, t, s);
            },
        },
        (PartView::Text(s), _) => {
            lemma_text_order(s, s, s);
        },
        _ => {},
    }
}

/// Keys are totally ordered by `key_before`.
pub proof fn lemma_key_order(a: Seq<PartView>, b: Seq<PartView>, c: Seq<PartView>)
    ensures
        a == b || key_before(a, b) || key_before(b, a),
        !(key_before(a, b) && key_before(b, a)),
        !key_before(a, a),
        key_before(a, b) && key_before(b, c) ==> key_before(a, c),
    decreases a.len(),
{
    if a.len() > 0 {
        lemma_part_order(a[0], a[0], a[0]);
        if b.len() > 0 {
            lemma_part_order(a[0], b[0], a[0]);
            lemma_part_order(b[0], a[0], b[0]);
            if c.len() > 0 {
                lemma_part_order(a[0], b[0], c[0]);
            }
            lemma_key_order(a.drop_first(), b.drop_first(), c.drop_first());
            if a[0] == b[0] && a.drop_first() == b.drop_first() {
                assert(a =~= seq![a[0]] + a.drop_first());
                assert(b =~= seq![b[0]] + b.drop_first());
            }
        } else {
            lemma_key_order(a.drop_first(), a.drop_first(), a.drop_first());
        }
    } else if b.len() == 0 {
        assert(a =~= b);
    }
}

/// What a sort needs of keys.
pub proof fn lemma_key_weak_order(a: Seq<PartView>, b: Seq<PartView>, c: Seq<PartView>)
    ensures
        !(key_before(a, b) && key_before(b, a)),
        !key_before(b, a) && !key_before(c, b) ==> !key_before(c, a),
{
    lemma_key_order(a, b, c);
    lemma_key_order(b, c, a);
    lemma_key_order(c, a, b);
    lemma_key_order(a, c, b);
    lemma_key_order(c, b, a);
    lemma_key_order(b, a, c);
}

/// The views of the parts of a key.
pub open spec fn parts(key: Seq<Part<'_>>) -> Seq<PartView> {
    Seq::new(key.len(), |i: int| key[i]@)
}

fn rank_part(a: &Part<'_>, b: &Part<'_>) -> (r: Rank)
    ensures
        r is Before <==> part_before(a@, b@),
        r is Same <==> a@ == b@,
        r is After <==> part_before(b@, a@),
{
    match (a, b) {
        (Part::Number(m), Part::Number(n)) => rank_number(*m, *n),
        (Part::Number(_), Part::Text(_)) => Rank::Before,
        (Part::Text(_), Part::Number(_)) => Rank::After,
        (Part::Text(s), Part::Text(t)) => rank_text(*s, *t),
    }
}

/// Compares two keys.
pub fn rank_keys(a: &Vec<Part<'_>>, b: &Vec<Part<'_>>) -> (r: Rank)
    ensures
        r is Before <==> key_before(parts(a@), parts(b@)),
        r is Same <==> parts(a@) == parts(b@),
        r is After <==> key_before(parts(b@), parts(a@)),
{
    let ghost x = parts(a@);
    let ghost y = parts(b@);
    let n: usize = a.len();
    let m: usize = b.len();
    let mut i: usize = 0;
    assert(x.skip(0) =~= x);
    assert(y.skip(0) =~= y);
    while i < n && i < m
        invariant
            i <= n,
            i <= m,
            n == a@.len(),
            m == b@.len(),
            x == parts(a@),
            y == parts(b@),
            forall|j: int| 0 <= j < i ==> #[trigger] x[j] == y[j],
            key_before(x, y) == key_before(x.skip(i as int), y.skip(i as int)),
            key_before(y, x) == key_before(y.skip(i as int), x.skip(i as int)),
        decreases n - i,
    {
        proof {
            assert(x.skip(i as int)[0] == a@[i as int]@);
            assert(y.skip(i as int)[0] == b@[i as int]@);
            assert(x.skip(i as int).drop_first() =~= x.skip(i + 1));
            assert(y.skip(i as int).drop_first() =~= y.skip(i + 1));
            lemma_part_order(x[i as int], y[i as int], x[i as int]);
            lemma_key_order(x, y, x);
        }
        match rank_part(&a[i], &b[i]) {
            Rank::Before => {
                return Rank::Before;
            },
            Rank::After => {
                return Rank::After;
            },
            Rank::Same => {},
        }
        i += 1;
    }
    proof {
        lemma_key_order(x, y, x);
        assert(x.skip(i as int).len() == n - i);
        assert(y.skip(i as int).len() == m - i);
    }
    if i < m {
        Rank::Before
    } else if i < n {
        Rank::After
    } else {
        assert(x =~= y);
        Rank::Same
    }
}

/// Items that are sorted by a key.
pub trait Keyed: View + Sized {
    spec fn key_view(v: Self::V) -> Seq<PartView>;

    fn key_parts(&self) -> (r: Vec<Part<'_>>)
        ensures
            parts(r@) == Self::key_view(self@),
    ;
}

/// Whether one item comes before another by its key.
pub fn keyed_before<T: Keyed>(a: &T, b: &T) -> (r: bool)
    ensures
        r == key_before(T::key_view(a@), T::key_view(b@)),
{
    match rank_keys(&a.key_parts(), &b.key_parts()) {
        Rank::Before => true,
        _ => false,
    }
}

/// Whether two items have the same key.
pub fn same_key<T: Keyed>(a: &T, b: &T) -> (r: bool)
    ensures
        r == (T::key_view(a@) == T::key_view(b@)),
{
    match rank_keys(&a.key_parts(), &b.key_parts()) {
        Rank::Same => true,
        _ => false,
    }
}

/// References are sorted by file, place and name.
pub fn reference_key(reference: &Reference) -> (r: (&str, u32, u32, &str))
    ensures
        r.0@ == reference.location.path@,
        r.1 == reference.location.byte_range.start,
        r.2 == reference.location.byte_range.end,
        r.3@ == reference.name@,
{
    (
        reference.location.path.as_str(),
        reference.location.byte_range.start,
        reference.location.byte_range.end,
        reference.name.as_str(),
    )
}

impl Keyed for Reference {
    open spec fn key_view(v: ReferenceView) -> Seq<PartView> {
        seq![PartView::Text(v.location.path), PartView::Number(v.location.byte_range.start), PartView::Number(v.location.byte_range.end), PartView::Text(v.name)]
    }

    fn key_parts(&self) -> (r: Vec<Part<'_>>) {
        let key = reference_key(self);
        let r = vec![Part::Text(key.0), Part::Number(key.1), Part::Number(key.2), Part::Text(key.3)];
        assert(parts(r@) =~= Self::key_view(self@));
        r
    }
}

impl Ranked for Reference {
    open spec fn before(a: ReferenceView, b: ReferenceView) -> bool {
        key_before(Self::key_view(a), Self::key_view(b))
    }

    fn is_before(&self, other: &Self) -> (r: bool) {
        keyed_before(self, other)
    }

    proof fn weak_order(a: ReferenceView, b: ReferenceView, c: ReferenceView) {
        lemma_key_weak_order(Self::key_view(a), Self::key_view(b), Self::key_view(c));
    }
}

/// Call sites are sorted by file, place, caller and dispatch.
pub fn call_site_key(call_site: &CallSite) -> (r: (&str, u32, u32, &str, &str))
    ensures
        r.0@ == call_site.location.path@,
        r.1 == call_site.location.byte_range.start,
        r.2 == call_site.location.byte_range.end,
        r.3@ == call_site.caller@,
        r.4@ == call_site.dispatch@,
{
    (
        call_site.location.path.as_str(),
        call_site.location.byte_range.start,
        call_site.location.byte_range.end,
        call_site.caller.as_str(),
        call_site.dispatch.as_str(),
    )
}

impl Keyed for CallSite {
    open spec fn key_view(v: CallSiteView) -> Seq<PartView> {
        seq![PartView::Text(v.location.path), PartView::Number(v.location.byte_range.start), PartView::Number(v.location.byte_range.end), PartView::Text(v.caller), PartView::Text(v.dispatch)]
    }

    fn key_parts(&self) -> (r: Vec<Part<'_>>) {
        let key = call_site_key(self);
        let r = vec![Part::Text(key.0), Part::Number(key.1), Part::Number(key.2), Part::Text(key.3), Part::Text(key.4)];
        assert(parts(r@) =~= Self::key_view(self@));
        r
    }
}

impl Ranked for CallSite {
    open spec fn before(a: CallSiteView, b: CallSiteView) -> bool {
        key_before(Self::key_view(a), Self::key_view(b))
    }

    fn is_before(&self, other: &Self) -> (r: bool) {
        keyed_before(self, other)
    }

    proof fn weak_order(a: CallSiteView, b: CallSiteView, c: CallSiteView) {
        lemma_key_weak_order(Self::key_view(a), Self::key_view(b), Self::key_view(c));
    }
}

/// Calls are sorted by file, place, caller, callee and dispatch.
pub fn call_key(call: &CallEdge) -> (r: (&str, u32, u32, &str, &str, &str))
    ensures
        r.0@ == call.call_site.path@,
        r.1 == call.call_site.byte_range.start,
        r.2 == call.call_site.byte_range.end,
        r.3@ == call.caller@,
        r.4@ == call.callee@,
        r.5@ == call.dispatch@,
{
    (
        call.call_site.path.as_str(),
        call.call_site.byte_range.start,
        call.call_site.byte_range.end,
        call.caller.as_str(),
        call.callee.as_str(),
        call.dispatch.as_str(),
    )
}

impl Keyed for CallEdge {
    open spec fn key_view(v: CallEdgeView) -> Seq<PartView> {
        seq![PartView::Text(v.call_site.path), PartView::Number(v.call_site.byte_range.start), PartView::Number(v.call_site.byte_range.end), PartView::Text(v.caller), PartView::Text(v.callee), PartView::Text(v.dispatch)]
    }

    fn key_parts(&self) -> (r: Vec<Part<'_>>) {
        let key = call_key(self);
        let r = vec![Part::Text(key.0), Part::Number(key.1), Part::Number(key.2), Part::Text(key.3), Part::Text(key.4), Part::Text(key.5)];
        assert(parts(r@) =~= Self::key_view(self@));
        r
    }
}

impl Ranked for CallEdge {
    open spec fn before(a: CallEdgeView, b: CallEdgeView) -> bool {
        key_before(Self::key_view(a), Self::key_view(b))
    }

    fn is_before(&self, other: &Self) -> (r: bool) {
        keyed_before(self, other)
    }

    proof fn weak_order(a: CallEdgeView, b: CallEdgeView, c: CallEdgeView) {
        lemma_key_weak_order(Self::key_view(a), Self::key_view(b), Self::key_view(c));
    }
}

/// The file of a diagnostic; empty when it has no place.
pub open spec fn diagnostic_path(v: DiagnosticView) -> Seq<char> {
    match v.location {
        Some(location) => location.path,
        None => ""@,
    }
}

/// The first byte of a diagnostic; zero when it has no place.
pub open spec fn diagnostic_start(v: DiagnosticView) -> u32 {
    match v.location {
        Some(location) => location.byte_range.start,
        None => 0,
    }
}

/// Diagnostics are sorted by file, place and message; those without a place come first.
pub fn diagnostic_key(diagnostic: &Diagnostic) -> (r: (&str, u32, &str))
    ensures
        r.0@ == diagnostic_path(diagnostic@),
        r.1 == diagnostic_start(diagnostic@),
        r.2@ == diagnostic.message@,
{
    match &diagnostic.location {
        Some(location) => (
            location.path.as_str(),
            location.byte_range.start,
            diagnostic.message.as_str(),
        ),
        None => ("", 0, diagnostic.message.as_str()),
    }
}

impl Keyed for Diagnostic {
    open spec fn key_view(v: DiagnosticView) -> Seq<PartView> {
        seq![PartView::Text(diagnostic_path(v)), PartView::Number(diagnostic_start(v)), PartView::Text(v.message)]
    }

    fn key_parts(&self) -> (r: Vec<Part<'_>>) {
        let key = diagnostic_key(self);
        let r = vec![Part::Text(key.0), Part::Number(key.1), Part::Text(key.2)];
        assert(parts(r@) =~= Self::key_view(self@));
        r
    }
}

impl Ranked for Diagnostic {
    open spec fn before(a: DiagnosticView, b: DiagnosticView) -> bool {
        key_before(Self::key_view(a), Self::key_view(b))
    }

    fn is_before(&self, other: &Self) -> (r: bool) {
        keyed_before(self, other)
    }

    proof fn weak_order(a: DiagnosticView, b: DiagnosticView, c: DiagnosticView) {
        lemma_key_weak_order(Self::key_view(a), Self::key_view(b), Self::key_view(c));
    }
}

impl Keyed for Resolution {
    open spec fn key_view(v: ResolutionView) -> Seq<PartView> {
        seq![PartView::Text(v.node_id)]
    }

    fn key_parts(&self) -> (r: Vec<Part<'_>>) {
        let r = vec![Part::Text(self.node_id.as_str())];
        assert(parts(r@) =~= Self::key_view(self@));
        r
    }
}

impl Ranked for Resolution {
    open spec fn before(a: ResolutionView, b: ResolutionView) -> bool {
        key_before(Self::key_view(a), Self::key_view(b))
    }

    fn is_before(&self, other: &Self) -> (r: bool) {
        keyed_before(self, other)
    }

    proof fn weak_order(a: ResolutionView, b: ResolutionView, c: ResolutionView) {
        lemma_key_weak_order(Self::key_view(a), Self::key_view(b), Self::key_view(c));
    }
}

impl Keyed for NodeType {
    open spec fn key_view(v: NodeTypeView) -> Seq<PartView> {
        seq![PartView::Text(v.node_id)]
    }

    fn key_parts(&self) -> (r: Vec<Part<'_>>) {
        let r = vec![Part::Text(self.node_id.as_str())];
        assert(parts(r@) =~= Self::key_view(self@));
        r
    }
}

impl Ranked for NodeType {
    open spec fn before(a: NodeTypeView, b: NodeTypeView) -> bool {
        key_before(Self::key_view(a), Self::key_view(b))
    }

    fn is_before(&self, other: &Self) -> (r: bool) {
        keyed_before(self, other)
    }

    proof fn weak_order(a: NodeTypeView, b: NodeTypeView, c: NodeTypeView) {
        lemma_key_weak_order(Self::key_view(a), Self::key_view(b), Self::key_view(c));
    }
}

impl Keyed for SymbolInfo {
    open spec fn key_view(v: SymbolInfoView) -> Seq<PartView> {
        seq![PartView::Text(v.id)]
    }

    fn key_parts(&self) -> (r: Vec<Part<'_>>) {
        let r = vec![Part::Text(self.id.as_str())];
        assert(parts(r@) =~= Self::key_view(self@));
        r
    }
}

impl Ranked for SymbolInfo {
    open spec fn before(a: SymbolInfoView, b: SymbolInfoView) -> bool {
        key_before(Self::key_view(a), Self::key_view(b))
    }

    fn is_before(&self, other: &Self) -> (r: bool) {
        keyed_before(self, other)
    }

    proof fn weak_order(a: SymbolInfoView, b: SymbolInfoView, c: SymbolInfoView) {
        lemma_key_weak_order(Self::key_view(a), Self::key_view(b), Self::key_view(c));
    }
}

impl Keyed for ControlFlowGraph {
    open spec fn key_view(v: ControlFlowGraphView) -> Seq<PartView> {
        seq![PartView::Text(v.symbol_id)]
    }

    fn key_parts(&self) -> (r: Vec<Part<'_>>) {
        let r = vec![Part::Text(self.symbol_id.as_str())];
        assert(parts(r@) =~= Self::key_view(self@));
        r
    }
}

impl Ranked for ControlFlowGraph {
    open spec fn before(a: ControlFlowGraphView, b: ControlFlowGraphView) -> bool {
        key_before(Self::key_view(a), Self::key_view(b))
    }

    fn is_before(&self, other: &Self) -> (r: bool) {
        keyed_before(self, other)
    }

    proof fn weak_order(a: ControlFlowGraphView, b: ControlFlowGraphView, c: ControlFlowGraphView) {
        lemma_key_weak_order(Self::key_view(a), Self::key_view(b), Self::key_view(c));
    }
}

impl Keyed for SymbolConstantValue {
    open spec fn key_view(v: SymbolConstantValueView) -> Seq<PartView> {
        seq![PartView::Text(v.symbol_id)]
    }

    fn key_parts(&self) -> (r: Vec<Part<'_>>) {
        let r = vec![Part::Text(self.symbol_id.as_str())];
        assert(parts(r@) =~= Self::key_view(self@));
        r
    }
}

impl Ranked for SymbolConstantValue {
    open spec fn before(a: SymbolConstantValueView, b: SymbolConstantValueView) -> bool {
        key_before(Self::key_view(a), Self::key_view(b))
    }

    fn is_before(&self, other: &Self) -> (r: bool) {
        keyed_before(self, other)
    }

    proof fn weak_order(a: SymbolConstantValueView, b: SymbolConstantValueView, c: SymbolConstantValueView) {
        lemma_key_weak_order(Self::key_view(a), Self::key_view(b), Self::key_view(c));
    }
}

} // verus!
