//! What the names of a program stand for, and the lookups of a single file.
use crate::ids::{LocalRef, Resolved, Span, SpanKey, SymbolRef};
use crate::syntax::{find_node, kind_of, lemma_part, node_at, part, text_of, NodeKind, SyntaxNode};
use crate::tables::{KeyMap, KeySet, Table};
use crate::text::{opt_view, views};
use vstd::prelude::*;

verus! {

/// The collections of which the elements are known one by one.
#[derive(Debug, Clone, Copy, PartialEq, Eq, Structural)]
pub enum CollectionKind {
    Array,
    Mapping,
    /// A list of nested pairs: the head in the first slot, the tail in the second.
    List,
}

/// What the names of a program stand for.
#[derive(Debug)]
pub struct Names {
    pub symbol_ids: Table<SymbolRef, String>,
    /// The functions, methods and get-methods.
    pub callables: KeySet<SymbolRef>,
    pub instance_methods: KeySet<SymbolRef>,
    /// The symbols that the standard library declares.
    pub library: KeySet<SymbolRef>,
    pub lambda_ids: Table<SpanKey, String>,
    pub collection_kinds: KeyMap<SpanKey, CollectionKind>,
    /// The collection keys of constants and enum members.
    pub constant_keys: Table<SymbolRef, String>,
    pub resolved: KeyMap<SpanKey, Resolved>,
    /// The path to the node at each range of source text that is asked for.
    pub located: KeyMap<SpanKey, Vec<usize>>,
    /// The local that is defined at each range of source text.
    pub defined: KeyMap<SpanKey, LocalRef>,
}

/// One file of a program.
#[derive(Debug, Clone, Copy)]
pub struct Scope<'a> {
    pub file: u32,
    pub source: &'a String,
    pub root: &'a SyntaxNode,
    pub names: &'a Names,
}

/// What the names of a program stand for.
#[verifier::ext_equal]
pub struct NamesView {
    pub symbol_ids: Map<SymbolRef, Seq<char>>,
    pub callables: Set<SymbolRef>,
    pub instance_methods: Set<SymbolRef>,
    pub library: Set<SymbolRef>,
    pub lambda_ids: Map<SpanKey, Seq<char>>,
    pub collection_kinds: Map<SpanKey, CollectionKind>,
    pub constant_keys: Map<SymbolRef, Seq<char>>,
    pub resolved: Map<SpanKey, Resolved>,
    pub located: Map<SpanKey, Seq<usize>>,
    pub defined: Map<SpanKey, LocalRef>,
}

/// The paths of a table.
pub open spec fn path_views(table: Map<SpanKey, Vec<usize>>) -> Map<SpanKey, Seq<usize>> {
    table.map_values(|path: Vec<usize>| path@)
}

impl View for Names {
    type V = NamesView;

    open spec fn view(&self) -> NamesView {
        NamesView {
            symbol_ids: self.symbol_ids@,
            callables: self.callables@,
            instance_methods: self.instance_methods@,
            library: self.library@,
            lambda_ids: self.lambda_ids@,
            collection_kinds: self.collection_kinds@,
            constant_keys: self.constant_keys@,
            resolved: self.resolved@,
            located: path_views(self.located@),
            defined: self.defined@,
        }
    }
}

/// One file of a program.
#[verifier::ext_equal]
pub struct ScopeView {
    pub file: u32,
    pub source: Seq<char>,
    pub root: SyntaxNode,
    pub names: NamesView,
}

impl<'a> View for Scope<'a> {
    type V = ScopeView;

    open spec fn view(&self) -> ScopeView {
        ScopeView {
            file: self.file,
            source: self.source@,
            root: *self.root,
            names: self.names@,
        }
    }
}

/// The text under a key of a table.
pub open spec fn text_under<A>(table: Map<A, Seq<char>>, key: A) -> Option<Seq<char>> {
    if table.contains_key(key) {
        Some(table[key])
    } else {
        None
    }
}

/// The place of a node.
pub open spec fn place(file: u32, node: SyntaxNode) -> SpanKey {
    SpanKey { file, start: node.start, end: node.end }
}

/// The path to the node at a range of source text.
pub open spec fn path_under(scope: ScopeView, span: Span) -> Option<Seq<usize>> {
    let key = SpanKey { file: scope.file, start: span.start, end: span.end };
    if scope.names.located.contains_key(key) {
        Some(scope.names.located[key])
    } else {
        None
    }
}

/// The node at a range of source text.
pub open spec fn node_under(scope: ScopeView, span: Span) -> Option<SyntaxNode> {
    match path_under(scope, span) {
        Some(path) => node_at(scope.root, path),
        None => None,
    }
}

/// The local that a node defines.
pub open spec fn defined_at(scope: ScopeView, node: SyntaxNode) -> Option<LocalRef> {
    let key = place(scope.file, node);
    if scope.names.defined.contains_key(key) {
        Some(scope.names.defined[key])
    } else {
        None
    }
}

/// What the name at a node stands for.
pub open spec fn resolved_at(scope: ScopeView, node: SyntaxNode) -> Option<Resolved> {
    let key = place(scope.file, node);
    if scope.names.resolved.contains_key(key) {
        Some(scope.names.resolved[key])
    } else {
        None
    }
}

/// The kind of collection that a node evaluates to.
pub open spec fn collection_at(scope: ScopeView, node: SyntaxNode) -> Option<CollectionKind> {
    let key = place(scope.file, node);
    if scope.names.collection_kinds.contains_key(key) {
        Some(scope.names.collection_kinds[key])
    } else {
        None
    }
}

/// The callable symbol that the name at a node stands for.
pub open spec fn callable_at(scope: ScopeView, node: SyntaxNode) -> Option<Seq<char>> {
    match resolved_at(scope, node) {
        Some(Resolved::Global(symbol)) => if scope.names.callables.contains(symbol) {
            text_under(scope.names.symbol_ids, symbol)
        } else {
            None
        },
        _ => None,
    }
}

/// The name at a node stands for a symbol of the standard library.
pub open spec fn is_library_name(scope: ScopeView, node: SyntaxNode) -> bool {
    match resolved_at(scope, node) {
        Some(Resolved::Global(symbol)) => scope.names.library.contains(symbol),
        _ => false,
    }
}

/// The callable that an expression names directly.
pub open spec fn direct_target(scope: ScopeView, node: SyntaxNode) -> Option<Seq<char>>
    decreases node,
{
    proof {
        lemma_part(node, "expr"@);
        lemma_part(node, "inner"@);
    }
    match kind_of(node.kind@) {
        NodeKind::Identifier => callable_at(scope, node),
        NodeKind::DotAccess => match part(node, "field"@) {
            Some(field) => callable_at(scope, field),
            None => None,
        },
        NodeKind::Generic | NodeKind::Cast => match part(node, "expr"@) {
            Some(inner) => direct_target(scope, inner),
            None => None,
        },
        NodeKind::Parenthesized | NodeKind::NotNull => match part(node, "inner"@) {
            Some(inner) => direct_target(scope, inner),
            None => None,
        },
        _ => None,
    }
}

/// A local and a path of its members.
#[verifier::ext_equal]
pub struct PathView {
    pub root: LocalRef,
    pub members: Seq<Seq<char>>,
}

/// A local and a path of its members.
#[derive(Debug)]
pub struct LocalPath {
    pub root: LocalRef,
    pub members: Vec<String>,
}

impl View for LocalPath {
    type V = PathView;

    open spec fn view(&self) -> PathView {
        PathView { root: self.root, members: views(self.members@) }
    }
}

/// The path one member further.
pub open spec fn then_member(
    path: Option<PathView>,
    scope: ScopeView,
    field: Option<SyntaxNode>,
) -> Option<PathView> {
    match (path, field) {
        (Some(path), Some(field)) => match text_of(scope.source, field) {
            Some(name) => Some(PathView { members: path.members.push(name), ..path }),
            None => None,
        },
        _ => None,
    }
}

/// The local that a name stands for.
pub open spec fn local_at(scope: ScopeView, node: SyntaxNode) -> Option<PathView> {
    match resolved_at(scope, node) {
        Some(Resolved::Local(root)) => Some(PathView { root, members: Seq::empty() }),
        _ => None,
    }
}

/// The local, or the member of a local, that an expression reads. A declaration on the left of
/// an assignment stands for the one local in `writes`.
pub open spec fn local_path(
    scope: ScopeView,
    node: SyntaxNode,
    writes: Option<Seq<LocalRef>>,
) -> Option<PathView>
    decreases node,
{
    proof {
        lemma_part(node, "inner"@);
        lemma_part(node, "obj"@);
    }
    match kind_of(node.kind@) {
        NodeKind::Identifier => local_at(scope, node),
        NodeKind::Parenthesized => match part(node, "inner"@) {
            Some(inner) => local_path(scope, inner, writes),
            None => None,
        },
        NodeKind::Declaration => match writes {
            Some(locals) => if locals.len() == 1 {
                Some(PathView { root: locals[0], members: Seq::empty() })
            } else {
                None
            },
            None => None,
        },
        NodeKind::DotAccess => match part(node, "obj"@) {
            Some(object) => then_member(
                local_path(scope, object, writes),
                scope,
                part(node, "field"@),
            ),
            None => None,
        },
        _ => None,
    }
}

impl<'a> Scope<'a> {
    pub fn place(&self, node: &SyntaxNode) -> (r: SpanKey)
        ensures
            r == place(self.file, *node),
    {
        SpanKey { file: self.file, start: node.start, end: node.end }
    }

    /// The node at a range of source text.
    pub fn find_node_at_span(&self, span: Span) -> (r: Option<&'a SyntaxNode>)
        ensures
            r is Some <==> node_under(self@, span) is Some,
            r matches Some(node) ==> Some(*node) == node_under(self@, span),
    {
        let key = SpanKey { file: self.file, start: span.start, end: span.end };
        match self.names.located.get(&key) {
            Some(path) => {
                assert(path@.take(path@.len() as int) =~= path@);
                find_node(self.root, path, path.len())
            },
            None => None,
        }
    }

    /// What the name at a node stands for.
    pub fn resolved_node(&self, node: &SyntaxNode) -> (r: Option<Resolved>)
        ensures
            r == resolved_at(self@, *node),
    {
        match self.names.resolved.get(&self.place(node)) {
            Some(resolved) => Some(*resolved),
            None => None,
        }
    }

    /// The kind of collection that a node evaluates to.
    pub fn collection_kind(&self, node: &SyntaxNode) -> (r: Option<CollectionKind>)
        ensures
            r == collection_at(self@, *node),
    {
        match self.names.collection_kinds.get(&self.place(node)) {
            Some(kind) => Some(*kind),
            None => None,
        }
    }

    fn callable_name(&self, node: &SyntaxNode) -> (r: Option<String>)
        ensures
            opt_view(r) == callable_at(self@, *node),
    {
        match self.resolved_node(node) {
            Some(Resolved::Global(symbol)) => {
                if !self.names.callables.contains(&symbol) {
                    return None;
                }
                match self.names.symbol_ids.get(&symbol) {
                    Some(id) => Some(id.clone()),
                    None => None,
                }
            },
            _ => None,
        }
    }

    /// Whether the name at a node stands for a symbol of the standard library.
    pub fn is_library_name(&self, node: &SyntaxNode) -> (r: bool)
        ensures
            r == is_library_name(self@, *node),
    {
        match self.resolved_node(node) {
            Some(Resolved::Global(symbol)) => self.names.library.contains(&symbol),
            _ => false,
        }
    }

    /// The callable that an expression names directly.
    pub fn direct_callable_target(&self, node: &SyntaxNode) -> (r: Option<String>)
        ensures
            opt_view(r) == direct_target(self@, *node),
        decreases node,
    {
        match node.node_kind() {
            NodeKind::Identifier => self.callable_name(node),
            NodeKind::DotAccess => match node.part("field") {
                Some(field) => self.callable_name(field),
                None => None,
            },
            NodeKind::Generic | NodeKind::Cast => match node.part("expr") {
                Some(inner) => self.direct_callable_target(inner),
                None => None,
            },
            NodeKind::Parenthesized | NodeKind::NotNull => match node.part("inner") {
                Some(inner) => self.direct_callable_target(inner),
                None => None,
            },
            _ => None,
        }
    }

    fn local_name(&self, node: &SyntaxNode) -> (r: Option<LocalPath>)
        ensures
            opt_view(r) == local_at(self@, *node),
    {
        match self.resolved_node(node) {
            Some(Resolved::Local(root)) => {
                let path = LocalPath { root, members: Vec::new() };
                assert(path@ =~= PathView { root, members: Seq::empty() });
                Some(path)
            },
            _ => None,
        }
    }

    fn path_of(&self, node: &SyntaxNode, writes: Option<&Vec<LocalRef>>) -> (r: Option<LocalPath>)
        ensures
            opt_view(r) == local_path(self@, *node, opt_view(writes)),
        decreases node,
    {
        match node.node_kind() {
            NodeKind::Identifier => self.local_name(node),
            NodeKind::Parenthesized => match node.part("inner") {
                Some(inner) => self.path_of(inner, writes),
                None => None,
            },
            NodeKind::Declaration => match writes {
                Some(locals) => if locals.len() == 1 {
                    let path = LocalPath { root: locals[0], members: Vec::new() };
                    assert(path@ =~= PathView { root: locals@[0], members: Seq::empty() });
                    Some(path)
                } else {
                    None
                },
                None => None,
            },
            NodeKind::DotAccess => {
                let object = match node.part("obj") {
                    Some(object) => object,
                    None => {
                        return None;
                    },
                };
                let mut path = match self.path_of(object, writes) {
                    Some(path) => path,
                    None => {
                        return None;
                    },
                };
                let field = match node.part("field") {
                    Some(field) => field,
                    None => {
                        return None;
                    },
                };
                match field.text(self.source.as_str()) {
                    Some(name) => {
                        let ghost before = path@;
                        path.members.push(name);
                        assert(path@ =~= PathView {
                            members: before.members.push(name@),
                            ..before
                        });
                        Some(path)
                    },
                    None => None,
                }
            },
            _ => None,
        }
    }

    /// The local, or the member of a local, that an expression reads.
    pub fn local_value_path(&self, node: &SyntaxNode) -> (r: Option<LocalPath>)
        ensures
            opt_view(r) == local_path(self@, *node, None),
    {
        self.path_of(node, None)
    }

    /// The local that a node defines.
    pub fn defined_local(&self, node: &SyntaxNode) -> (r: Option<LocalRef>)
        ensures
            r == defined_at(self@, *node),
    {
        match self.names.defined.get(&self.place(node)) {
            Some(local) => Some(*local),
            None => None,
        }
    }

    /// The local, or the member of a local, that an assignment writes.
    pub fn local_assignment_target(&self, node: &SyntaxNode, writes: &Vec<LocalRef>) -> (r: Option<
        LocalPath,
    >)
        ensures
            opt_view(r) == local_path(self@, *node, Some(writes@)),
    {
        self.path_of(node, Some(writes))
    }
}

} // verus!
