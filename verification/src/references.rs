//! The uses of names in a project.
use crate::facts::{file_from, find_file, AccessFact, BodyFacts, FileFacts, NameKind, UseFact};
use crate::ids::{LocalRef, Resolved, Span, SpanKey, SymbolRef};
use crate::lambdas::shortest_from;
use crate::model::{
    copy_text, AstNode, AstNodeView, Diagnostic, DiagnosticView, Reference, ReferenceAccess,
    ReferenceContext, ReferenceContextView, ReferenceView, Resolution, ResolutionView,
    SourceLocation, SourceLocationView,
};
use crate::scope::{path_views, text_under};
use crate::sort::{deduped, drop_repeats, sort_stably, stable_sorted, Ranked, Repeats};
use crate::symbols::{exact_node, find_exact_node, span_location};
use crate::syntax::{find_node, kind_of, node_at, part, NodeKind, SyntaxNode};
use crate::tables::{ascending, Key, KeyMap, Table};
use crate::text::{lemma_text_order, opt_view, rank_text, same_text, text_before, views, Rank};
use vstd::prelude::*;
use vstd::string::*;

verus! {

broadcast use crate::text::group_views;

/// The place and the name of a use.
#[verifier::ext_equal]
pub struct UseKeyView {
    pub place: SpanKey,
    pub name: Seq<char>,
}

/// The place and the name of a use.
#[derive(Debug)]
pub struct UseKey {
    pub place: SpanKey,
    pub name: String,
}

impl View for UseKey {
    type V = UseKeyView;

    open spec fn view(&self) -> UseKeyView {
        UseKeyView { place: self.place, name: self.name@ }
    }
}

impl Ranked for UseKey {
    open spec fn before(a: UseKeyView, b: UseKeyView) -> bool {
        SpanKey::before(a.place, b.place) || (a.place == b.place && text_before(a.name, b.name))
    }

    fn is_before(&self, other: &Self) -> (r: bool) {
        if self.place.is_before(&other.place) {
            return true;
        }
        if self.place != other.place {
            return false;
        }
        match rank_text(self.name.as_str(), other.name.as_str()) {
            Rank::Before => true,
            _ => false,
        }
    }

    proof fn weak_order(a: UseKeyView, b: UseKeyView, c: UseKeyView) {
        lemma_text_order(a.name, b.name, c.name);
        lemma_text_order(b.name, a.name, c.name);
        lemma_text_order(b.name, c.name, a.name);
        lemma_text_order(c.name, b.name, a.name);
        lemma_text_order(a.name, c.name, b.name);
        lemma_text_order(c.name, a.name, b.name);
    }
}

impl Key for UseKey {
    proof fn total(a: UseKeyView, b: UseKeyView) {
        lemma_text_order(a.name, b.name, a.name);
    }

    fn copy(&self) -> (r: Self) {
        UseKey { place: self.place, name: self.name.clone() }
    }
}

/// What a use stands for.
#[derive(Debug, Clone, Copy)]
pub struct UseValue {
    pub kind: NameKind,
    pub resolved: Resolved,
}

/// The key of a use.
pub open spec fn use_key(file: u32, usage: UseFact) -> UseKeyView {
    UseKeyView {
        place: SpanKey { file, start: usage.span.start, end: usage.span.end },
        name: usage.name@,
    }
}

/// What a use stands for.
pub open spec fn use_value(usage: UseFact) -> UseValue {
    UseValue { kind: usage.kind, resolved: usage.resolved }
}

/// The uses that name resolution found, from position `i` on.
pub open spec fn uses_from(
    file: u32,
    uses: Seq<UseFact>,
    i: int,
    acc: Map<UseKeyView, UseValue>,
) -> Map<UseKeyView, UseValue>
    decreases uses.len() - i,
{
    if 0 <= i < uses.len() {
        uses_from(file, uses, i + 1, acc.insert(use_key(file, uses[i]), use_value(uses[i])))
    } else {
        acc
    }
}

/// The uses that name resolution found in the files from position `i` on.
pub open spec fn resolved_uses_from(
    files: Seq<FileFacts>,
    i: int,
    acc: Map<UseKeyView, UseValue>,
) -> Map<UseKeyView, UseValue>
    decreases files.len() - i,
{
    if 0 <= i < files.len() {
        resolved_uses_from(
            files,
            i + 1,
            match files[i].resolved {
                Some(facts) => uses_from(files[i].id, facts.uses@, 0, acc),
                None => acc,
            },
        )
    } else {
        acc
    }
}

/// The uses with one that type inference found. It counts where there was none, or where it is
/// resolved and the one there was not.
pub open spec fn with_inferred(
    file: u32,
    usage: UseFact,
    acc: Map<UseKeyView, UseValue>,
) -> Map<UseKeyView, UseValue> {
    let key = use_key(file, usage);
    if !acc.contains_key(key) || (acc[key].resolved is Unresolved && !(
    usage.resolved is Unresolved)) {
        acc.insert(key, use_value(usage))
    } else {
        acc
    }
}

pub open spec fn inferred_from(
    file: u32,
    uses: Seq<UseFact>,
    i: int,
    acc: Map<UseKeyView, UseValue>,
) -> Map<UseKeyView, UseValue>
    decreases uses.len() - i,
{
    if 0 <= i < uses.len() {
        inferred_from(file, uses, i + 1, with_inferred(file, uses[i], acc))
    } else {
        acc
    }
}

pub open spec fn bodies_from(
    file: u32,
    bodies: Seq<BodyFacts>,
    i: int,
    acc: Map<UseKeyView, UseValue>,
) -> Map<UseKeyView, UseValue>
    decreases bodies.len() - i,
{
    if 0 <= i < bodies.len() {
        bodies_from(file, bodies, i + 1, inferred_from(file, bodies[i].uses@, 0, acc))
    } else {
        acc
    }
}

/// The uses with those that type inference found in the files from position `i` on.
pub open spec fn inferred_uses_from(
    files: Seq<FileFacts>,
    i: int,
    acc: Map<UseKeyView, UseValue>,
) -> Map<UseKeyView, UseValue>
    decreases files.len() - i,
{
    if 0 <= i < files.len() {
        inferred_uses_from(files, i + 1, bodies_from(files[i].id, files[i].bodies@, 0, acc))
    } else {
        acc
    }
}

/// All uses of names in a project.
pub open spec fn all_uses(files: Seq<FileFacts>) -> Map<UseKeyView, UseValue> {
    inferred_uses_from(files, 0, resolved_uses_from(files, 0, Map::empty()))
}

impl UseFact {
    fn key(&self, file: u32) -> (r: UseKey)
        ensures
            r@ == use_key(file, *self),
    {
        UseKey {
            place: SpanKey { file, start: self.span.start, end: self.span.end },
            name: self.name.clone(),
        }
    }

    fn value(&self) -> (r: UseValue)
        ensures
            r == use_value(*self),
    {
        UseValue { kind: self.kind, resolved: self.resolved }
    }
}

/// All uses of names in a project.
pub fn collect_uses(files: &Vec<FileFacts>) -> (r: KeyMap<UseKey, UseValue>)
    ensures
        r@ == all_uses(files@),
{
    let mut out: KeyMap<UseKey, UseValue> = KeyMap::new();
    let n: usize = files.len();
    let mut i: usize = 0;
    while i < n
        invariant
            i <= n,
            n == files@.len(),
            resolved_uses_from(files@, 0, Map::empty()) == resolved_uses_from(
                files@,
                i as int,
                out@,
            ),
        decreases n - i,
    {
        match &files[i].resolved {
            Some(facts) => {
                let file: u32 = files[i].id;
                let ghost before = out@;
                let m: usize = facts.uses.len();
                let mut j: usize = 0;
                while j < m
                    invariant
                        j <= m,
                        m == facts.uses@.len(),
                        uses_from(file, facts.uses@, 0, before) == uses_from(
                            file,
                            facts.uses@,
                            j as int,
                            out@,
                        ),
                    decreases m - j,
                {
                    out.insert(facts.uses[j].key(file), facts.uses[j].value());
                    j += 1;
                }
            },
            None => {},
        }
        i += 1;
    }
    let ghost start = out@;
    let mut k: usize = 0;
    while k < n
        invariant
            k <= n,
            n == files@.len(),
            inferred_uses_from(files@, 0, start) == inferred_uses_from(files@, k as int, out@),
        decreases n - k,
    {
        collect_inferred(files[k].id, &files[k].bodies, &mut out);
        k += 1;
    }
    out
}

fn collect_inferred(file: u32, bodies: &Vec<BodyFacts>, out: &mut KeyMap<UseKey, UseValue>)
    ensures
        final(out)@ == bodies_from(file, bodies@, 0, old(out)@),
{
    let ghost start = out@;
    let n: usize = bodies.len();
    let mut i: usize = 0;
    while i < n
        invariant
            i <= n,
            n == bodies@.len(),
            bodies_from(file, bodies@, 0, start) == bodies_from(file, bodies@, i as int, out@),
        decreases n - i,
    {
        let uses = &bodies[i].uses;
        let ghost before = out@;
        let m: usize = uses.len();
        let mut j: usize = 0;
        while j < m
            invariant
                j <= m,
                m == uses@.len(),
                inferred_from(file, uses@, 0, before) == inferred_from(
                    file,
                    uses@,
                    j as int,
                    out@,
                ),
            decreases m - j,
        {
            let usage = &uses[j];
            let key = usage.key(file);
            let replace = match out.get(&key) {
                Some(existing) => match (existing.resolved, usage.resolved) {
                    (Resolved::Unresolved, Resolved::Unresolved) => false,
                    (Resolved::Unresolved, _) => true,
                    _ => false,
                },
                None => true,
            };
            if replace {
                out.insert(key, usage.value());
            }
            j += 1;
        }
        i += 1;
    }
}

/// What the names at the places of uses from position `i` on stand for.
pub open spec fn by_place_from(
    uses: Map<UseKeyView, UseValue>,
    keys: Seq<UseKeyView>,
    i: int,
    acc: Map<SpanKey, Resolved>,
) -> Map<SpanKey, Resolved>
    decreases keys.len() - i,
{
    if 0 <= i < keys.len() {
        by_place_from(
            uses,
            keys,
            i + 1,
            acc.insert(keys[i].place, uses[keys[i]].resolved),
        )
    } else {
        acc
    }
}

/// What the names at the places of uses stand for.
pub open spec fn resolved_by_place(uses: Map<UseKeyView, UseValue>) -> Map<SpanKey, Resolved> {
    by_place_from(uses, ascending::<UseKey>(uses.dom()), 0, Map::empty())
}

/// What the names at the places of uses stand for.
pub fn index_uses(uses: &KeyMap<UseKey, UseValue>) -> (r: KeyMap<SpanKey, Resolved>)
    ensures
        r@ == resolved_by_place(uses@),
{
    let mut out: KeyMap<SpanKey, Resolved> = KeyMap::new();
    let ghost keys = ascending::<UseKey>(uses@.dom());
    let n: usize = uses.len();
    let mut i: usize = 0;
    while i < n
        invariant
            i <= n,
            n == keys.len(),
            keys == uses.sequence(),
            by_place_from(uses@, keys, 0, Map::empty()) == by_place_from(
                uses@,
                keys,
                i as int,
                out@,
            ),
        decreases n - i,
    {
        let key = uses.key_at(i);
        let value = uses.value_at(i);
        out.insert(key.place, value.resolved);
        i += 1;
    }
    out
}

/// The paths to the nodes of a file from position `i` on.
pub open spec fn located_in(file: FileFacts, i: int, acc: Map<SpanKey, Seq<usize>>) -> Map<
    SpanKey,
    Seq<usize>,
>
    decreases file.located@.len() - i,
{
    if 0 <= i < file.located@.len() {
        let fact = file.located@[i];
        located_in(
            file,
            i + 1,
            acc.insert(
                SpanKey { file: file.id, start: fact.span.start, end: fact.span.end },
                fact.path@,
            ),
        )
    } else {
        acc
    }
}

/// The paths to the nodes of the files from position `i` on.
pub open spec fn located_from(
    files: Seq<FileFacts>,
    i: int,
    acc: Map<SpanKey, Seq<usize>>,
) -> Map<SpanKey, Seq<usize>>
    decreases files.len() - i,
{
    if 0 <= i < files.len() {
        located_from(files, i + 1, located_in(files[i], 0, acc))
    } else {
        acc
    }
}

fn copy_path(path: &Vec<usize>) -> (r: Vec<usize>)
    ensures
        r@ == path@,
{
    let n: usize = path.len();
    let mut out: Vec<usize> = Vec::new();
    let mut i: usize = 0;
    while i < n
        invariant
            i <= n,
            n == path@.len(),
            out@ == path@.take(i as int),
        decreases n - i,
    {
        out.push(path[i]);
        assert(out@ =~= path@.take(i + 1));
        i += 1;
    }
    assert(path@.take(n as int) =~= path@);
    out
}

/// The paths to the nodes at the places that are asked for.
pub fn collect_located(files: &Vec<FileFacts>) -> (r: KeyMap<SpanKey, Vec<usize>>)
    ensures
        path_views(r@) == located_from(files@, 0, Map::empty()),
{
    let mut out: KeyMap<SpanKey, Vec<usize>> = KeyMap::new();
    let n: usize = files.len();
    let mut i: usize = 0;
    assert(path_views(out@) =~= Map::empty());
    while i < n
        invariant
            i <= n,
            n == files@.len(),
            located_from(files@, 0, Map::empty()) == located_from(
                files@,
                i as int,
                path_views(out@),
            ),
        decreases n - i,
    {
        let file = &files[i];
        let ghost before = path_views(out@);
        let m: usize = file.located.len();
        let mut j: usize = 0;
        while j < m
            invariant
                j <= m,
                m == file.located@.len(),
                located_in(*file, 0, before) == located_in(*file, j as int, path_views(out@)),
            decreases m - j,
        {
            let fact = &file.located[j];
            let key = SpanKey { file: file.id, start: fact.span.start, end: fact.span.end };
            let ghost held = path_views(out@);
            out.insert(key, copy_path(&fact.path));
            assert(path_views(out@) =~= held.insert(key, fact.path@));
            j += 1;
        }
        i += 1;
    }
    out
}

/// The nearest call around the node at the end of a path calls what stands at a span.
pub open spec fn called_at(root: SyntaxNode, path: Seq<usize>, depth: int, span: Span) -> bool
    decreases depth,
{
    match node_at(root, path.take(depth)) {
        Some(node) => if kind_of(node.kind@) is Call {
            match part(node, "callee"@) {
                Some(callee) => callee.start <= span.start && callee.end >= span.end,
                None => false,
            }
        } else if depth > 0 {
            called_at(root, path, depth - 1, span)
        } else {
            false
        },
        None => false,
    }
}

/// What stands at a span of a file is called there.
pub open spec fn is_called(
    file: FileFacts,
    located: Map<SpanKey, Seq<usize>>,
    span: Span,
) -> bool {
    let key = SpanKey { file: file.id, start: span.start, end: span.end };
    located.contains_key(key) && called_at(
        file.text.root,
        located[key],
        located[key].len() as int,
        span,
    )
}

fn call_node(file: &FileFacts, located: &KeyMap<SpanKey, Vec<usize>>, span: Span) -> (r: bool)
    ensures
        r == is_called(*file, path_views(located@), span),
{
    let key = SpanKey { file: file.id, start: span.start, end: span.end };
    let path = match located.get(&key) {
        Some(path) => path,
        None => {
            return false;
        },
    };
    let mut depth: usize = path.len();
    loop
        invariant
            depth <= path@.len(),
            is_called(*file, path_views(located@), span) == called_at(
                file.text.root,
                path@,
                depth as int,
                span,
            ),
        decreases depth,
    {
        match find_node(&file.text.root, path, depth) {
            Some(node) => {
                if let NodeKind::Call = node.node_kind() {
                    return match node.part("callee") {
                        Some(callee) => callee.start <= span.start && callee.end >= span.end,
                        None => false,
                    };
                }
            },
            None => {
                return false;
            },
        }
        if depth == 0 {
            return false;
        }
        depth -= 1;
    }
}

/// A node of a file holds a span.
pub open spec fn node_holds(path: Seq<char>, span: Span) -> spec_fn(AstNodeView) -> bool {
    |node: AstNodeView|
        node.location.path == path && node.location.byte_range.start <= span.start
            && node.location.byte_range.end >= span.end
}

/// The length of a node.
pub open spec fn node_size() -> spec_fn(AstNodeView) -> int {
    |node: AstNodeView| node.location.byte_range.end - node.location.byte_range.start
}

/// The node that holds a span most closely.
pub open spec fn smallest_node(nodes: Seq<AstNodeView>, path: Seq<char>, span: Span) -> Option<
    Seq<char>,
> {
    match shortest_from(nodes, node_holds(path, span), node_size(), 0, None) {
        Some(at) => Some(nodes[at].id),
        None => None,
    }
}

/// The node that holds a span most closely.
pub fn find_smallest_node(nodes: &Vec<AstNode>, path: &str, span: Span) -> (r: Option<String>)
    ensures
        opt_view(r) == smallest_node(views(nodes@), path@, span),
{
    let ghost all = views(nodes@);
    let n: usize = nodes.len();
    let mut best: Option<usize> = None;
    let mut i: usize = 0;
    while i < n
        invariant
            i <= n,
            n == nodes@.len(),
            all == views(nodes@),
            best matches Some(b) ==> b < n,
            shortest_from(all, node_holds(path@, span), node_size(), 0, None) == shortest_from(
                all,
                node_holds(path@, span),
                node_size(),
                i as int,
                match best {
                    Some(b) => Some(b as int),
                    None => None,
                },
            ),
        decreases n - i,
    {
        let at = &nodes[i].location;
        assert(all[i as int] == nodes@[i as int]@);
        if at.byte_range.start <= span.start && at.byte_range.end >= span.end && same_text(
            at.path.as_str(),
            path,
        ) {
            let better = match best {
                Some(b) => {
                    assert(all[b as int] == nodes@[b as int]@);
                    let other = nodes[b].location.byte_range;
                    (at.byte_range.end as i64) - (at.byte_range.start as i64) < (
                    other.end as i64) - (other.start as i64)
                },
                None => true,
            };
            if better {
                best = Some(i);
            }
        }
        i += 1;
    }
    match best {
        Some(b) => {
            assert(all[b as int] == nodes@[b as int]@);
            Some(nodes[b].id.clone())
        },
        None => None,
    }
}

/// The node at a span, or else the one that holds it most closely.
pub open spec fn node_for(
    places: Map<SpanKey, Seq<char>>,
    nodes: Seq<AstNodeView>,
    file: FileFacts,
    span: Span,
) -> Option<Seq<char>> {
    match exact_node(places, file.id, span) {
        Some(id) => Some(id),
        None => smallest_node(nodes, file.text.path@, span),
    }
}

/// The node at a span, or else the one that holds it most closely.
pub fn find_node_for(
    places: &Table<SpanKey, String>,
    nodes: &Vec<AstNode>,
    file: &FileFacts,
    span: Span,
) -> (r: Option<String>)
    ensures
        opt_view(r) == node_for(places@, views(nodes@), *file, span),
{
    match find_exact_node(places, file.id, span) {
        Some(id) => Some(id),
        None => find_smallest_node(nodes, file.text.path.as_str(), span),
    }
}

/// How the use at a span accesses what it names; a use of which nothing is known reads it.
pub open spec fn access_from(accesses: Seq<AccessFact>, span: Span, i: int) -> ReferenceAccess
    decreases accesses.len() - i,
{
    if 0 <= i < accesses.len() {
        if accesses[i].span == span {
            accesses[i].access
        } else {
            access_from(accesses, span, i + 1)
        }
    } else {
        ReferenceAccess { read: true, write: false, mutate: false }
    }
}

fn find_access(accesses: &Vec<AccessFact>, span: Span) -> (r: ReferenceAccess)
    ensures
        r == access_from(accesses@, span, 0),
{
    let n: usize = accesses.len();
    let mut i: usize = 0;
    while i < n
        invariant
            i <= n,
            n == accesses@.len(),
            access_from(accesses@, span, 0) == access_from(accesses@, span, i as int),
        decreases n - i,
    {
        if accesses[i].span == span {
            return accesses[i].access;
        }
        i += 1;
    }
    ReferenceAccess { read: true, write: false, mutate: false }
}

/// The namespace of a use in words.
pub open spec fn namespace_text(kind: NameKind) -> Seq<char> {
    match kind {
        NameKind::Value | NameKind::LocalValue => "value"@,
        NameKind::Type => "type"@,
        NameKind::Mixed => "mixed"@,
    }
}

fn namespace_of(kind: NameKind) -> (r: &'static str)
    ensures
        r@ == namespace_text(kind),
{
    match kind {
        NameKind::Value | NameKind::LocalValue => "value",
        NameKind::Type => "type",
        NameKind::Mixed => "mixed",
    }
}

/// The use of a name in words.
pub open spec fn usage_text(called: bool, access: ReferenceAccess) -> Seq<char> {
    if called {
        "call"@
    } else if access.mutate {
        "mutate"@
    } else if access.write {
        "write"@
    } else {
        "read"@
    }
}

/// The id of what a name stands for.
pub open spec fn resolved_id(
    resolved: Resolved,
    ids: Map<SymbolRef, Seq<char>>,
    locals: Map<LocalRef, Seq<char>>,
) -> Option<Seq<char>> {
    match resolved {
        Resolved::Global(symbol) => text_under(ids, symbol),
        Resolved::Local(local) => text_under(locals, local),
        Resolved::Unresolved => None,
    }
}

/// The references, resolutions and diagnostics of uses.
#[verifier::ext_equal]
pub struct FoundView {
    pub references: Seq<ReferenceView>,
    pub resolutions: Seq<ResolutionView>,
    pub diagnostics: Seq<DiagnosticView>,
}

/// The references, resolutions and diagnostics of uses.
#[derive(Debug)]
pub struct Found {
    pub references: Vec<Reference>,
    pub resolutions: Vec<Resolution>,
    pub diagnostics: Vec<Diagnostic>,
}

impl View for Found {
    type V = FoundView;

    open spec fn view(&self) -> FoundView {
        FoundView {
            references: views(self.references@),
            resolutions: views(self.resolutions@),
            diagnostics: views(self.diagnostics@),
        }
    }
}

/// The tables that references are made with.
pub struct Indexes<'a> {
    pub ids: &'a Table<SymbolRef, String>,
    pub locals: &'a Table<LocalRef, String>,
    pub places: &'a Table<SpanKey, String>,
    pub located: &'a KeyMap<SpanKey, Vec<usize>>,
    pub nodes: &'a Vec<AstNode>,
}

/// The tables that references are made with.
#[verifier::ext_equal]
pub struct IndexesView {
    pub ids: Map<SymbolRef, Seq<char>>,
    pub locals: Map<LocalRef, Seq<char>>,
    pub places: Map<SpanKey, Seq<char>>,
    pub located: Map<SpanKey, Seq<usize>>,
    pub nodes: Seq<AstNodeView>,
}

impl<'a> View for Indexes<'a> {
    type V = IndexesView;

    open spec fn view(&self) -> IndexesView {
        IndexesView {
            ids: self.ids@,
            locals: self.locals@,
            places: self.places@,
            located: path_views(self.located@),
            nodes: views(self.nodes@),
        }
    }
}

/// A diagnostic without help, annotations and fixes.
pub open spec fn plain_diagnostic(
    phase: Seq<char>,
    source: Seq<char>,
    severity: Seq<char>,
    code: Seq<char>,
    message: Seq<char>,
    location: Option<SourceLocationView>,
) -> DiagnosticView {
    DiagnosticView {
        phase,
        source,
        severity,
        code: Some(code),
        message,
        location,
        help: None,
        annotations: Seq::empty(),
        fixes: Seq::empty(),
    }
}

/// A diagnostic without help, annotations and fixes.
pub fn make_diagnostic(
    phase: &str,
    source: &str,
    severity: &str,
    code: &str,
    message: String,
    location: Option<SourceLocation>,
) -> (r: Diagnostic)
    ensures
        r@ == plain_diagnostic(
            phase@,
            source@,
            severity@,
            code@,
            message@,
            opt_view(location),
        ),
{
    let r = Diagnostic {
        phase: phase.to_owned(),
        source: source.to_owned(),
        severity: severity.to_owned(),
        code: Some(code.to_owned()),
        message,
        location,
        help: None,
        annotations: Vec::new(),
        fixes: Vec::new(),
    };
    assert(r@.annotations =~= Seq::empty());
    assert(r@.fixes =~= Seq::empty());
    r
}

/// A reference.
pub open spec fn reference_of(
    file: FileFacts,
    key: UseKeyView,
    value: UseValue,
    indexes: IndexesView,
) -> ReferenceView {
    let span = Span { start: key.place.start, end: key.place.end };
    let access = access_from(file.accesses@, span, 0);
    let id = resolved_id(value.resolved, indexes.ids, indexes.locals);
    ReferenceView {
        symbol_id: id,
        name: key.name,
        location: span_location(file, span),
        context: ReferenceContextView {
            namespace: namespace_text(value.kind),
            usage: usage_text(is_called(file, indexes.located, span), access),
            access,
        },
        node_id: node_for(indexes.places, indexes.nodes, file, span),
        resolved: id is Some,
    }
}

/// What is said of a name that stands for nothing.
pub open spec fn unresolved_text(kind: NameKind, name: Seq<char>) -> Seq<char> {
    "unresolved "@ + namespace_text(kind) + " name `"@ + name + "`"@
}

/// What was found, with one more use.
pub open spec fn with_use(
    file: FileFacts,
    key: UseKeyView,
    value: UseValue,
    indexes: IndexesView,
    acc: FoundView,
) -> FoundView {
    let reference = reference_of(file, key, value, indexes);
    FoundView {
        references: acc.references.push(reference),
        resolutions: match reference.node_id {
            Some(node_id) => acc.resolutions.push(
                ResolutionView {
                    node_id,
                    symbol_id: reference.symbol_id,
                    resolved: reference.resolved,
                },
            ),
            None => acc.resolutions,
        },
        diagnostics: if reference.resolved {
            acc.diagnostics
        } else {
            acc.diagnostics.push(
                plain_diagnostic(
                    "resolution"@,
                    "tolk-resolver"@,
                    "warning"@,
                    "unresolved-name"@,
                    unresolved_text(value.kind, key.name),
                    Some(reference.location),
                ),
            )
        },
    }
}

/// What was found, with the uses from position `i` on.
pub open spec fn found_from(
    files: Seq<FileFacts>,
    uses: Map<UseKeyView, UseValue>,
    keys: Seq<UseKeyView>,
    indexes: IndexesView,
    i: int,
    acc: FoundView,
) -> FoundView
    decreases keys.len() - i,
{
    if 0 <= i < keys.len() {
        let next = match file_from(files, keys[i].place.file, 0) {
            Some(at) => with_use(files[at], keys[i], uses[keys[i]], indexes, acc),
            None => acc,
        };
        found_from(files, uses, keys, indexes, i + 1, next)
    } else {
        acc
    }
}

impl Repeats for Resolution {
    open spec fn repeats(a: ResolutionView, b: ResolutionView) -> bool {
        a.node_id == b.node_id && a.symbol_id == b.symbol_id
    }

    fn is_repeated_by(&self, other: &Self) -> (r: bool) {
        same_text(self.node_id.as_str(), other.node_id.as_str()) && same_optional(
            &self.symbol_id,
            &other.symbol_id,
        )
    }
}

/// The references and resolutions of a project in order, each resolution once, and what is
/// wrong with them.
pub open spec fn references_of(
    files: Seq<FileFacts>,
    uses: Map<UseKeyView, UseValue>,
    indexes: IndexesView,
) -> FoundView {
    let found = found_from(
        files,
        uses,
        ascending::<UseKey>(uses.dom()),
        indexes,
        0,
        FoundView {
            references: Seq::empty(),
            resolutions: Seq::empty(),
            diagnostics: Seq::empty(),
        },
    );
    FoundView {
        references: stable_sorted::<Reference>(found.references),
        resolutions: deduped::<Resolution>(stable_sorted::<Resolution>(found.resolutions)),
        diagnostics: found.diagnostics,
    }
}

fn find_resolved_id(
    resolved: Resolved,
    ids: &Table<SymbolRef, String>,
    locals: &Table<LocalRef, String>,
) -> (r: Option<String>)
    ensures
        opt_view(r) == resolved_id(resolved, ids@, locals@),
{
    match resolved {
        Resolved::Global(symbol) => match ids.get(&symbol) {
            Some(id) => Some(id.clone()),
            None => None,
        },
        Resolved::Local(local) => match locals.get(&local) {
            Some(id) => Some(id.clone()),
            None => None,
        },
        Resolved::Unresolved => None,
    }
}

fn add_use(
    file: &FileFacts,
    key: &UseKey,
    value: &UseValue,
    indexes: &Indexes<'_>,
    found: &mut Found,
)
    ensures
        final(found)@ == with_use(*file, key@, *value, indexes@, old(found)@),
{
    let ghost start = found@;
    let span = Span { start: key.place.start, end: key.place.end };
    let id = find_resolved_id(value.resolved, indexes.ids, indexes.locals);
    let access = find_access(&file.accesses, span);
    let usage = if call_node(file, indexes.located, span) {
        "call"
    } else if access.mutate {
        "mutate"
    } else if access.write {
        "write"
    } else {
        "read"
    };
    let node_id = find_node_for(indexes.places, indexes.nodes, file, span);
    let resolved = id.is_some();
    let place = file.location(span);
    let namespace = namespace_of(value.kind);
    match &node_id {
        Some(node) => {
            found.resolutions.push(
                Resolution { node_id: node.clone(), symbol_id: copy_text(&id), resolved },
            );
        },
        None => {},
    }
    if !resolved {
        let mut message = "unresolved ".to_owned();
        message.append(namespace);
        message.append(" name `");
        message.append(key.name.as_str());
        message.append("`");
        found.diagnostics.push(
            make_diagnostic(
                "resolution",
                "tolk-resolver",
                "warning",
                "unresolved-name",
                message,
                Some(place.clone()),
            ),
        );
    }
    let reference = Reference {
        symbol_id: id,
        name: key.name.clone(),
        location: place,
        context: ReferenceContext {
            namespace: namespace.to_owned(),
            usage: usage.to_owned(),
            access,
        },
        node_id,
        resolved,
    };
    assert(reference@ =~= reference_of(*file, key@, *value, indexes@));
    found.references.push(reference);
    assert(found@ =~= with_use(*file, key@, *value, indexes@, start));
}

fn same_optional(a: &Option<String>, b: &Option<String>) -> (r: bool)
    ensures
        r == (opt_view(*a) == opt_view(*b)),
{
    match (a, b) {
        (Some(x), Some(y)) => same_text(x.as_str(), y.as_str()),
        (None, None) => true,
        _ => false,
    }
}

/// The references and resolutions of a project, and what is wrong with them.
pub fn collect_references(
    files: &Vec<FileFacts>,
    uses: &KeyMap<UseKey, UseValue>,
    indexes: &Indexes<'_>,
) -> (r: Found)
    ensures
        r@ == references_of(files@, uses@, indexes@),
{
    let mut found = Found {
        references: Vec::new(),
        resolutions: Vec::new(),
        diagnostics: Vec::new(),
    };
    let ghost start = FoundView {
        references: Seq::empty(),
        resolutions: Seq::empty(),
        diagnostics: Seq::empty(),
    };
    assert(found@ =~= start);
    let ghost keys = ascending::<UseKey>(uses@.dom());
    let n: usize = uses.len();
    let mut i: usize = 0;
    while i < n
        invariant
            i <= n,
            n == keys.len(),
            keys == uses.sequence(),
            found_from(files@, uses@, keys, indexes@, 0, start) == found_from(
                files@,
                uses@,
                keys,
                indexes@,
                i as int,
                found@,
            ),
        decreases n - i,
    {
        let key = uses.key_at(i);
        let value = uses.value_at(i);
        match find_file(files, key.place.file) {
            Some(at) => {
                add_use(&files[at], key, value, indexes, &mut found);
            },
            None => {},
        }
        i += 1;
    }
    let Found { references, resolutions, diagnostics } = found;
    Found {
        references: sort_stably(references),
        resolutions: drop_repeats(sort_stably(resolutions)),
        diagnostics,
    }
}

} // verus!
