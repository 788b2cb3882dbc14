//! The snapshot of an inspected project.
use crate::tables::KeyMap;
use crate::text::{opt_view, views};
use vstd::prelude::*;
use vstd::string::*;

verus! {

/// A position in a file: the line, and the UTF-16 units before it on that line, both from zero.
#[derive(Debug, Clone, Copy, PartialEq, Eq, Structural)]
pub struct Position {
    pub line: u32,
    pub character: u32,
}

#[derive(Debug, Clone, Copy, PartialEq, Eq, Structural)]
pub struct SourceRange {
    pub start: Position,
    pub end: Position,
}

#[derive(Debug, Clone, Copy, PartialEq, Eq, Structural)]
pub struct ByteRange {
    pub start: u32,
    pub end: u32,
}

/// Where a source file belongs.
#[derive(Debug, Clone, Copy, PartialEq, Eq, Structural)]
pub enum SourceKind {
    Workspace,
    Stdlib,
    Acton,
}

#[derive(Debug, Clone, Copy, PartialEq, Eq, Structural)]
pub struct SymbolFlags {
    pub deprecated: bool,
    pub pure: bool,
    pub private: bool,
    pub mutable: bool,
    pub local: bool,
    pub parameter: bool,
}

/// No flag at all.
pub open spec fn no_flags() -> SymbolFlags {
    SymbolFlags {
        deprecated: false,
        pure: false,
        private: false,
        mutable: false,
        local: false,
        parameter: false,
    }
}

impl Default for SymbolFlags {
    fn default() -> (r: Self)
        ensures
            r == no_flags(),
    {
        SymbolFlags {
            deprecated: false,
            pure: false,
            private: false,
            mutable: false,
            local: false,
            parameter: false,
        }
    }
}

/// How a use accesses what it names.
#[derive(Debug, Clone, Copy, PartialEq, Eq, Structural)]
pub struct ReferenceAccess {
    pub read: bool,
    pub write: bool,
    pub mutate: bool,
}

/// Of which files the control-flow graphs are given.
#[derive(Debug, Clone, Copy, PartialEq, Eq, Structural)]
pub enum ControlFlowScope {
    Off,
    Workspace,
    All,
}

/// The value of a constant. Integers are in decimal, whatever their size.
#[allow(inconsistent_fields)]
#[derive(Debug)]
pub enum ConstantValue {
    Int { value: String, display: String },
    Bool { value: bool, display: String },
    Text { value: String, display: String },
    Overflow { display: String },
    Unknown { display: String },
}

#[allow(inconsistent_fields)]
#[verifier::ext_equal]
pub enum ConstantValueView {
    Int { value: Seq<char>, display: Seq<char> },
    Bool { value: bool, display: Seq<char> },
    Text { value: Seq<char>, display: Seq<char> },
    Overflow { display: Seq<char> },
    Unknown { display: Seq<char> },
}

impl View for ConstantValue {
    type V = ConstantValueView;

    open spec fn view(&self) -> ConstantValueView {
        match *self {
            ConstantValue::Int { value, display } => ConstantValueView::Int {
                value: value@,
                display: display@,
            },
            ConstantValue::Bool { value, display } => ConstantValueView::Bool {
                value,
                display: display@,
            },
            ConstantValue::Text { value, display } => ConstantValueView::Text {
                value: value@,
                display: display@,
            },
            ConstantValue::Overflow { display } => ConstantValueView::Overflow {
                display: display@,
            },
            ConstantValue::Unknown { display } => ConstantValueView::Unknown {
                display: display@,
            },
        }
    }
}

/// A place in a source file: in UTF-16 positions and in bytes.
#[derive(Debug)]
pub struct SourceLocation {
    pub path: String,
    pub range: SourceRange,
    pub byte_range: ByteRange,
}

#[verifier::ext_equal]
pub struct SourceLocationView {
    pub path: Seq<char>,
    pub range: SourceRange,
    pub byte_range: ByteRange,
}

impl View for SourceLocation {
    type V = SourceLocationView;

    open spec fn view(&self) -> SourceLocationView {
        SourceLocationView {
            path: self.path@,
            range: self.range,
            byte_range: self.byte_range,
        }
    }
}

/// An import, and the file that it leads to.
#[derive(Debug)]
pub struct ImportInfo {
    pub path: String,
    pub target_path: Option<String>,
    pub location: SourceLocation,
}

#[verifier::ext_equal]
pub struct ImportInfoView {
    pub path: Seq<char>,
    pub target_path: Option<Seq<char>>,
    pub location: SourceLocationView,
}

impl View for ImportInfo {
    type V = ImportInfoView;

    open spec fn view(&self) -> ImportInfoView {
        ImportInfoView {
            path: self.path@,
            target_path: opt_view(self.target_path),
            location: self.location@,
        }
    }
}

/// A source file of the project.
#[derive(Debug)]
pub struct SourceFile {
    pub path: String,
    pub source: String,
    pub root_node: String,
    pub source_kind: SourceKind,
    pub imports: Vec<ImportInfo>,
}

#[verifier::ext_equal]
pub struct SourceFileView {
    pub path: Seq<char>,
    pub source: Seq<char>,
    pub root_node: Seq<char>,
    pub source_kind: SourceKind,
    pub imports: Seq<ImportInfoView>,
}

impl View for SourceFile {
    type V = SourceFileView;

    open spec fn view(&self) -> SourceFileView {
        SourceFileView {
            path: self.path@,
            source: self.source@,
            root_node: self.root_node@,
            source_kind: self.source_kind,
            imports: views(self.imports@),
        }
    }
}

/// A declared symbol, a local or a lambda.
#[derive(Debug)]
pub struct SymbolInfo {
    pub id: String,
    pub name: String,
    pub fqn: String,
    pub kind: String,
    pub declaration: SourceLocation,
    pub body: Option<SourceLocation>,
    pub containing_symbol: Option<String>,
    pub documentation: Option<String>,
    pub flags: SymbolFlags,
    pub node_id: Option<String>,
}

#[verifier::ext_equal]
pub struct SymbolInfoView {
    pub id: Seq<char>,
    pub name: Seq<char>,
    pub fqn: Seq<char>,
    pub kind: Seq<char>,
    pub declaration: SourceLocationView,
    pub body: Option<SourceLocationView>,
    pub containing_symbol: Option<Seq<char>>,
    pub documentation: Option<Seq<char>>,
    pub flags: SymbolFlags,
    pub node_id: Option<Seq<char>>,
}

impl View for SymbolInfo {
    type V = SymbolInfoView;

    open spec fn view(&self) -> SymbolInfoView {
        SymbolInfoView {
            id: self.id@,
            name: self.name@,
            fqn: self.fqn@,
            kind: self.kind@,
            declaration: self.declaration@,
            body: opt_view(self.body),
            containing_symbol: opt_view(self.containing_symbol),
            documentation: opt_view(self.documentation),
            flags: self.flags,
            node_id: opt_view(self.node_id),
        }
    }
}

/// How a name is used.
#[derive(Debug)]
pub struct ReferenceContext {
    pub namespace: String,
    pub usage: String,
    pub access: ReferenceAccess,
}

#[verifier::ext_equal]
pub struct ReferenceContextView {
    pub namespace: Seq<char>,
    pub usage: Seq<char>,
    pub access: ReferenceAccess,
}

impl View for ReferenceContext {
    type V = ReferenceContextView;

    open spec fn view(&self) -> ReferenceContextView {
        ReferenceContextView {
            namespace: self.namespace@,
            usage: self.usage@,
            access: self.access,
        }
    }
}

/// A use of a name.
#[derive(Debug)]
pub struct Reference {
    pub symbol_id: Option<String>,
    pub name: String,
    pub location: SourceLocation,
    pub context: ReferenceContext,
    pub node_id: Option<String>,
    pub resolved: bool,
}

#[verifier::ext_equal]
pub struct ReferenceView {
    pub symbol_id: Option<Seq<char>>,
    pub name: Seq<char>,
    pub location: SourceLocationView,
    pub context: ReferenceContextView,
    pub node_id: Option<Seq<char>>,
    pub resolved: bool,
}

impl View for Reference {
    type V = ReferenceView;

    open spec fn view(&self) -> ReferenceView {
        ReferenceView {
            symbol_id: opt_view(self.symbol_id),
            name: self.name@,
            location: self.location@,
            context: self.context@,
            node_id: opt_view(self.node_id),
            resolved: self.resolved,
        }
    }
}

/// What the name at a node stands for.
#[derive(Debug)]
pub struct Resolution {
    pub node_id: String,
    pub symbol_id: Option<String>,
    pub resolved: bool,
}

#[verifier::ext_equal]
pub struct ResolutionView {
    pub node_id: Seq<char>,
    pub symbol_id: Option<Seq<char>>,
    pub resolved: bool,
}

impl View for Resolution {
    type V = ResolutionView;

    open spec fn view(&self) -> ResolutionView {
        ResolutionView {
            node_id: self.node_id@,
            symbol_id: opt_view(self.symbol_id),
            resolved: self.resolved,
        }
    }
}

/// A type that occurs in the project.
#[derive(Debug)]
pub struct TypeInfo {
    pub id: String,
    pub display: String,
    pub kind: String,
    pub symbol_id: Option<String>,
    pub element_types: Vec<String>,
    pub return_type: Option<String>,
}

#[verifier::ext_equal]
pub struct TypeInfoView {
    pub id: Seq<char>,
    pub display: Seq<char>,
    pub kind: Seq<char>,
    pub symbol_id: Option<Seq<char>>,
    pub element_types: Seq<Seq<char>>,
    pub return_type: Option<Seq<char>>,
}

impl View for TypeInfo {
    type V = TypeInfoView;

    open spec fn view(&self) -> TypeInfoView {
        TypeInfoView {
            id: self.id@,
            display: self.display@,
            kind: self.kind@,
            symbol_id: opt_view(self.symbol_id),
            element_types: views(self.element_types@),
            return_type: opt_view(self.return_type),
        }
    }
}

/// The type of a node.
#[derive(Debug)]
pub struct NodeType {
    pub node_id: String,
    pub type_id: String,
}

#[verifier::ext_equal]
pub struct NodeTypeView {
    pub node_id: Seq<char>,
    pub type_id: Seq<char>,
}

impl View for NodeType {
    type V = NodeTypeView;

    open spec fn view(&self) -> NodeTypeView {
        NodeTypeView {
            node_id: self.node_id@,
            type_id: self.type_id@,
        }
    }
}

/// A call, and the callables that it may reach.
#[derive(Debug)]
pub struct CallSite {
    pub caller: String,
    pub location: SourceLocation,
    pub node_id: Option<String>,
    pub dispatch: String,
    pub targets: Vec<String>,
    pub complete: bool,
}

#[verifier::ext_equal]
pub struct CallSiteView {
    pub caller: Seq<char>,
    pub location: SourceLocationView,
    pub node_id: Option<Seq<char>>,
    pub dispatch: Seq<char>,
    pub targets: Seq<Seq<char>>,
    pub complete: bool,
}

impl View for CallSite {
    type V = CallSiteView;

    open spec fn view(&self) -> CallSiteView {
        CallSiteView {
            caller: self.caller@,
            location: self.location@,
            node_id: opt_view(self.node_id),
            dispatch: self.dispatch@,
            targets: views(self.targets@),
            complete: self.complete,
        }
    }
}

/// One callable that may call another.
#[derive(Debug)]
pub struct CallEdge {
    pub caller: String,
    pub callee: String,
    pub call_site: SourceLocation,
    pub node_id: Option<String>,
    pub dispatch: String,
}

#[verifier::ext_equal]
pub struct CallEdgeView {
    pub caller: Seq<char>,
    pub callee: Seq<char>,
    pub call_site: SourceLocationView,
    pub node_id: Option<Seq<char>>,
    pub dispatch: Seq<char>,
}

impl View for CallEdge {
    type V = CallEdgeView;

    open spec fn view(&self) -> CallEdgeView {
        CallEdgeView {
            caller: self.caller@,
            callee: self.callee@,
            call_site: self.call_site@,
            node_id: opt_view(self.node_id),
            dispatch: self.dispatch@,
        }
    }
}

/// A note on a place that a diagnostic speaks of.
#[derive(Debug)]
pub struct DiagnosticAnnotation {
    pub location: SourceLocation,
    pub message: Option<String>,
    pub primary: bool,
    pub tags: Vec<String>,
}

#[verifier::ext_equal]
pub struct DiagnosticAnnotationView {
    pub location: SourceLocationView,
    pub message: Option<Seq<char>>,
    pub primary: bool,
    pub tags: Seq<Seq<char>>,
}

impl View for DiagnosticAnnotation {
    type V = DiagnosticAnnotationView;

    open spec fn view(&self) -> DiagnosticAnnotationView {
        DiagnosticAnnotationView {
            location: self.location@,
            message: opt_view(self.message),
            primary: self.primary,
            tags: views(self.tags@),
        }
    }
}

/// A replacement of source text.
#[derive(Debug)]
pub struct DiagnosticEdit {
    pub location: SourceLocation,
    pub replacement: String,
}

#[verifier::ext_equal]
pub struct DiagnosticEditView {
    pub location: SourceLocationView,
    pub replacement: Seq<char>,
}

impl View for DiagnosticEdit {
    type V = DiagnosticEditView;

    open spec fn view(&self) -> DiagnosticEditView {
        DiagnosticEditView {
            location: self.location@,
            replacement: self.replacement@,
        }
    }
}

/// A way to fix what a diagnostic reports.
#[derive(Debug)]
pub struct DiagnosticFix {
    pub message: String,
    pub applicability: String,
    pub edits: Vec<DiagnosticEdit>,
}

#[verifier::ext_equal]
pub struct DiagnosticFixView {
    pub message: Seq<char>,
    pub applicability: Seq<char>,
    pub edits: Seq<DiagnosticEditView>,
}

impl View for DiagnosticFix {
    type V = DiagnosticFixView;

    open spec fn view(&self) -> DiagnosticFixView {
        DiagnosticFixView {
            message: self.message@,
            applicability: self.applicability@,
            edits: views(self.edits@),
        }
    }
}

/// A finding in the project.
#[derive(Debug)]
pub struct Diagnostic {
    pub phase: String,
    pub source: String,
    pub severity: String,
    pub code: Option<String>,
    pub message: String,
    pub location: Option<SourceLocation>,
    pub help: Option<String>,
    pub annotations: Vec<DiagnosticAnnotation>,
    pub fixes: Vec<DiagnosticFix>,
}

#[verifier::ext_equal]
pub struct DiagnosticView {
    pub phase: Seq<char>,
    pub source: Seq<char>,
    pub severity: Seq<char>,
    pub code: Option<Seq<char>>,
    pub message: Seq<char>,
    pub location: Option<SourceLocationView>,
    pub help: Option<Seq<char>>,
    pub annotations: Seq<DiagnosticAnnotationView>,
    pub fixes: Seq<DiagnosticFixView>,
}

impl View for Diagnostic {
    type V = DiagnosticView;

    open spec fn view(&self) -> DiagnosticView {
        DiagnosticView {
            phase: self.phase@,
            source: self.source@,
            severity: self.severity@,
            code: opt_view(self.code),
            message: self.message@,
            location: opt_view(self.location),
            help: opt_view(self.help),
            annotations: views(self.annotations@),
            fixes: views(self.fixes@),
        }
    }
}

/// A node of a control-flow graph.
#[derive(Debug)]
pub struct ControlFlowNode {
    pub id: String,
    pub kind: String,
    pub location: Option<SourceLocation>,
    pub ast_node_id: Option<String>,
    pub reads: Vec<String>,
    pub writes: Vec<String>,
}

#[verifier::ext_equal]
pub struct ControlFlowNodeView {
    pub id: Seq<char>,
    pub kind: Seq<char>,
    pub location: Option<SourceLocationView>,
    pub ast_node_id: Option<Seq<char>>,
    pub reads: Seq<Seq<char>>,
    pub writes: Seq<Seq<char>>,
}

impl View for ControlFlowNode {
    type V = ControlFlowNodeView;

    open spec fn view(&self) -> ControlFlowNodeView {
        ControlFlowNodeView {
            id: self.id@,
            kind: self.kind@,
            location: opt_view(self.location),
            ast_node_id: opt_view(self.ast_node_id),
            reads: views(self.reads@),
            writes: views(self.writes@),
        }
    }
}

/// An edge of a control-flow graph.
#[derive(Debug)]
pub struct ControlFlowEdge {
    pub from: String,
    pub to: String,
    pub kind: String,
}

#[verifier::ext_equal]
pub struct ControlFlowEdgeView {
    pub from: Seq<char>,
    pub to: Seq<char>,
    pub kind: Seq<char>,
}

impl View for ControlFlowEdge {
    type V = ControlFlowEdgeView;

    open spec fn view(&self) -> ControlFlowEdgeView {
        ControlFlowEdgeView {
            from: self.from@,
            to: self.to@,
            kind: self.kind@,
        }
    }
}

/// The control-flow graph of a callable.
#[derive(Debug)]
pub struct ControlFlowGraph {
    pub symbol_id: String,
    pub entry: String,
    pub exit: String,
    pub nodes: Vec<ControlFlowNode>,
    pub edges: Vec<ControlFlowEdge>,
}

#[verifier::ext_equal]
pub struct ControlFlowGraphView {
    pub symbol_id: Seq<char>,
    pub entry: Seq<char>,
    pub exit: Seq<char>,
    pub nodes: Seq<ControlFlowNodeView>,
    pub edges: Seq<ControlFlowEdgeView>,
}

impl View for ControlFlowGraph {
    type V = ControlFlowGraphView;

    open spec fn view(&self) -> ControlFlowGraphView {
        ControlFlowGraphView {
            symbol_id: self.symbol_id@,
            entry: self.entry@,
            exit: self.exit@,
            nodes: views(self.nodes@),
            edges: views(self.edges@),
        }
    }
}

/// The value of a constant or an enum member.
#[derive(Debug)]
pub struct SymbolConstantValue {
    pub symbol_id: String,
    pub value: ConstantValue,
}

#[verifier::ext_equal]
pub struct SymbolConstantValueView {
    pub symbol_id: Seq<char>,
    pub value: ConstantValueView,
}

impl View for SymbolConstantValue {
    type V = SymbolConstantValueView;

    open spec fn view(&self) -> SymbolConstantValueView {
        SymbolConstantValueView {
            symbol_id: self.symbol_id@,
            value: self.value@,
        }
    }
}

/// A node of a syntax tree.
#[derive(Debug)]
pub struct AstNode {
    pub id: String,
    pub kind: String,
    pub raw_kind: String,
    pub named: bool,
    pub error: bool,
    pub parent_id: Option<String>,
    pub child_ids: Vec<String>,
    pub fields: KeyMap<String, Vec<String>>,
    pub location: SourceLocation,
    pub text: String,
}

#[verifier::ext_equal]
pub struct AstNodeView {
    pub id: Seq<char>,
    pub kind: Seq<char>,
    pub raw_kind: Seq<char>,
    pub named: bool,
    pub error: bool,
    pub parent_id: Option<Seq<char>>,
    pub child_ids: Seq<Seq<char>>,
    pub fields: Map<Seq<char>, Seq<Seq<char>>>,
    pub location: SourceLocationView,
    pub text: Seq<char>,
}

/// Lists of texts under the keys of a table.
pub open spec fn lists_under(table: Map<Seq<char>, Vec<String>>) -> Map<Seq<char>, Seq<Seq<char>>> {
    table.map_values(|list: Vec<String>| views(list@))
}

impl View for AstNode {
    type V = AstNodeView;

    open spec fn view(&self) -> AstNodeView {
        AstNodeView {
            id: self.id@,
            kind: self.kind@,
            raw_kind: self.raw_kind@,
            named: self.named,
            error: self.error,
            parent_id: opt_view(self.parent_id),
            child_ids: views(self.child_ids@),
            fields: lists_under(self.fields@),
            location: self.location@,
            text: self.text@,
        }
    }
}

impl Clone for SourceLocation {
    fn clone(&self) -> (r: Self)
        ensures
            r@ == self@,
    {
        SourceLocation {
            path: self.path.clone(),
            range: self.range,
            byte_range: self.byte_range,
        }
    }
}

/// A copy of an optional text.
pub fn copy_text(text: &Option<String>) -> (r: Option<String>)
    ensures
        opt_view(r) == opt_view(*text),
{
    match text {
        Some(value) => Some(value.clone()),
        None => None,
    }
}

/// A copy of a list of texts.
pub fn copy_texts(texts: &Vec<String>) -> (r: Vec<String>)
    ensures
        views(r@) == views(texts@),
{
    let n: usize = texts.len();
    let mut out: Vec<String> = Vec::new();
    let mut i: usize = 0;
    while i < n
        invariant
            i <= n,
            n == texts@.len(),
            out@.len() == i,
            forall|j: int| 0 <= j < i ==> (#[trigger] out@[j])@ == texts@[j]@,
        decreases n - i,
    {
        out.push(texts[i].clone());
        i += 1;
    }
    assert(views(out@) =~= views(texts@));
    out
}

} // verus!
