//! The snapshot of a project.
use crate::bodies::{collect_program_calls, project_bodies, project_calls_lie_in_files};
use crate::calls::{call_graph, call_graph_of, normalize_call_sites, normalized_sites};
use crate::constants::{collect_constant_values, constant_values};
use crate::definitions::{
    callable_definitions, collect_names, definitions_lie_in_files, project_definitions,
    project_names,
};
use crate::diagnostics::{
    are_edits_known, collect_file_diagnostics, collect_lint_diagnostics,
    collect_project_diagnostics, collect_source_files, edits_known, file_diagnostics_from,
    lint_diagnostics_from, project_diagnostics_from, source_files_from,
};
use crate::facts::{FileFacts, LintFact, ProjectFacts, TypeFact};
use crate::flow::graph_ok;
use crate::graphs::{project_graphs, GraphTables, GraphTablesView};
use crate::ids::SpanKey;
use crate::lambdas::{
    collect_lambda_symbols, collect_lambdas, lambdas_from, symbols_with_lambdas, LambdaView,
};
use crate::model::{
    AstNode, AstNodeView, CallEdge, CallEdgeView, CallSite, CallSiteView, ControlFlowGraph,
    ControlFlowGraphView, ControlFlowScope, Diagnostic, DiagnosticView, NodeType, NodeTypeView,
    Reference, ReferenceView, Resolution, ResolutionView, SourceFile, SourceFileView,
    SymbolConstantValue, SymbolConstantValueView, SymbolInfo, SymbolInfoView, TypeInfo,
    TypeInfoView,
};
use crate::node_types::{are_numbers_ok, numbers_ok, project_types, Typing, TypingView};
use crate::nodes::{collect_node, tree_nodes, tree_places};
use crate::path::{path_text, result_view, LogicalPath};
use crate::program::{
    program_analysis, program_ok, AnalysisView, DefinitionView, Program, ProgramView,
};
use crate::project::{InspectError, InspectErrorView};
use crate::references::{
    all_uses, collect_references, collect_uses, references_of, Indexes, IndexesView,
};
use crate::scope::{Names, NamesView};
use crate::sort::{sort_stably, stable_sorted, Ranked};
use crate::symbols::{
    collect_full_names, collect_local_ids, collect_symbols, full_names_from, local_ids_from,
    sorted_symbols,
};
use crate::tables::Table;
use crate::text::{opt_view, views};
use crate::types::{are_types_closed, types_closed};
use vstd::prelude::*;
use vstd::string::*;

verus! {

broadcast use crate::text::group_views;

/// The version of this package.
pub const PACKAGE_VERSION: &'static str = "0.1.1";

/// The revision of the Acton toolchain that projects are analyzed with.
pub const ACTON_REVISION: &'static str = "17654feb713c5824ee4cc0259b7be9b5f72898ba";

/// The version of the Tolk language.
pub const TOLK_VERSION: &'static str = "1.4.2";

/// What a snapshot was made with.
#[derive(Debug, Clone, Copy)]
pub struct VersionInfo {
    pub package_version: &'static str,
    pub acton_revision: &'static str,
    pub tolk_version: &'static str,
}

/// What a snapshot was made with.
#[verifier::ext_equal]
pub struct VersionInfoView {
    pub package_version: Seq<char>,
    pub acton_revision: Seq<char>,
    pub tolk_version: Seq<char>,
}

impl View for VersionInfo {
    type V = VersionInfoView;

    open spec fn view(&self) -> VersionInfoView {
        VersionInfoView {
            package_version: self.package_version@,
            acton_revision: self.acton_revision@,
            tolk_version: self.tolk_version@,
        }
    }
}

/// What snapshots are made with.
pub open spec fn current_version() -> VersionInfoView {
    VersionInfoView {
        package_version: "0.1.1"@,
        acton_revision: "17654feb713c5824ee4cc0259b7be9b5f72898ba"@,
        tolk_version: "1.4.2"@,
    }
}

impl VersionInfo {
    /// What snapshots are made with.
    pub fn current() -> (r: VersionInfo)
        ensures
            r@ == current_version(),
    {
        VersionInfo {
            package_version: PACKAGE_VERSION,
            acton_revision: ACTON_REVISION,
            tolk_version: TOLK_VERSION,
        }
    }
}

/// All that is found out about a project.
#[derive(Debug)]
pub struct ProjectSnapshot {
    pub version: VersionInfo,
    pub root: String,
    pub files: Vec<SourceFile>,
    pub nodes: Vec<AstNode>,
    pub symbols: Vec<SymbolInfo>,
    pub references: Vec<Reference>,
    pub resolutions: Vec<Resolution>,
    pub types: Vec<TypeInfo>,
    pub node_types: Vec<NodeType>,
    pub constant_values: Vec<SymbolConstantValue>,
    pub control_flow_graphs: Vec<ControlFlowGraph>,
    pub call_sites: Vec<CallSite>,
    pub call_graph: Vec<CallEdge>,
    pub diagnostics: Vec<Diagnostic>,
}

/// All that is found out about a project.
#[verifier::ext_equal]
pub struct ProjectSnapshotView {
    pub version: VersionInfoView,
    pub root: Seq<char>,
    pub files: Seq<SourceFileView>,
    pub nodes: Seq<AstNodeView>,
    pub symbols: Seq<SymbolInfoView>,
    pub references: Seq<ReferenceView>,
    pub resolutions: Seq<ResolutionView>,
    pub types: Seq<TypeInfoView>,
    pub node_types: Seq<NodeTypeView>,
    pub constant_values: Seq<SymbolConstantValueView>,
    pub control_flow_graphs: Seq<ControlFlowGraphView>,
    pub call_sites: Seq<CallSiteView>,
    pub call_graph: Seq<CallEdgeView>,
    pub diagnostics: Seq<DiagnosticView>,
}

impl View for ProjectSnapshot {
    type V = ProjectSnapshotView;

    open spec fn view(&self) -> ProjectSnapshotView {
        ProjectSnapshotView {
            version: self.version@,
            root: self.root@,
            files: views(self.files@),
            nodes: views(self.nodes@),
            symbols: views(self.symbols@),
            references: views(self.references@),
            resolutions: views(self.resolutions@),
            types: views(self.types@),
            node_types: views(self.node_types@),
            constant_values: views(self.constant_values@),
            control_flow_graphs: views(self.control_flow_graphs@),
            call_sites: views(self.call_sites@),
            call_graph: views(self.call_graph@),
            diagnostics: views(self.diagnostics@),
        }
    }
}

impl View for FileFacts {
    type V = FileFacts;

    open spec fn view(&self) -> FileFacts {
        *self
    }
}

impl Ranked for FileFacts {
    open spec fn before(a: FileFacts, b: FileFacts) -> bool {
        LogicalPath::before(a.path@, b.path@)
    }

    fn is_before(&self, other: &Self) -> (r: bool) {
        self.path.is_before(&other.path)
    }

    proof fn weak_order(a: FileFacts, b: FileFacts, c: FileFacts) {
        LogicalPath::weak_order(a.path@, b.path@, c.path@);
    }
}

fn sort_files(files: Vec<FileFacts>) -> (r: Vec<FileFacts>)
    ensures
        r@ == stable_sorted::<FileFacts>(files@),
{
    assert(views(files@) =~= files@);
    let sorted = sort_stably(files);
    assert(views(sorted@) =~= sorted@);
    sorted
}

/// The nodes of the syntax trees of a project, and which of them stands at each place.
#[verifier::ext_equal]
pub struct ForestView {
    pub nodes: Seq<AstNodeView>,
    pub places: Map<SpanKey, Seq<char>>,
}

/// The nodes of the syntax trees of a project, and which of them stands at each place.
#[derive(Debug)]
pub struct Forest {
    pub nodes: Vec<AstNode>,
    pub places: Table<SpanKey, String>,
}

impl View for Forest {
    type V = ForestView;

    open spec fn view(&self) -> ForestView {
        ForestView { nodes: views(self.nodes@), places: self.places@ }
    }
}

/// With the nodes of the files from position `i` on.
pub open spec fn forest_from(files: Seq<FileFacts>, i: int, acc: ForestView) -> ForestView
    decreases files.len() - i,
{
    if 0 <= i < files.len() {
        let text = files[i].text;
        forest_from(
            files,
            i + 1,
            ForestView {
                nodes: acc.nodes + tree_nodes(text.path@, text.source@, text.root, None, 0),
                places: tree_places(files[i].id, text.path@, text.root, 0, acc.places),
            },
        )
    } else {
        acc
    }
}

/// The nodes of the syntax trees of a project.
pub open spec fn project_forest(files: Seq<FileFacts>) -> ForestView {
    forest_from(files, 0, ForestView { nodes: Seq::empty(), places: Map::empty() })
}

/// The nodes of the syntax trees of a project.
pub fn collect_forest(files: &Vec<FileFacts>) -> (r: Forest)
    ensures
        r@ == project_forest(files@),
{
    let mut nodes: Vec<AstNode> = Vec::new();
    let mut places: Table<SpanKey, String> = Table::new();
    let n: usize = files.len();
    let mut i: usize = 0;
    while i < n
        invariant
            i <= n,
            n == files@.len(),
            project_forest(files@) == forest_from(
                files@,
                i as int,
                ForestView { nodes: views(nodes@), places: places@ },
            ),
        decreases n - i,
    {
        let text = &files[i].text;
        collect_node(
            files[i].id,
            text.path.as_str(),
            text.source.as_str(),
            &text.root,
            None,
            0,
            &mut nodes,
            &mut places,
        );
        i += 1;
    }
    Forest { nodes, places }
}

/// The program that a project is.
pub open spec fn project_program(
    files: Seq<FileFacts>,
    names: NamesView,
    node_ids: Map<SpanKey, Seq<char>>,
) -> ProgramView {
    ProgramView {
        names,
        files,
        node_ids,
        definitions: project_definitions(files, names),
        calls: project_bodies(files, names).calls,
        creations: project_bodies(files, names).creations,
    }
}

/// The program that a project is.
pub fn assemble<'a>(
    files: &'a Vec<FileFacts>,
    names: &'a Names,
    node_ids: &'a Table<SpanKey, String>,
) -> (r: Program<'a>)
    ensures
        r@ == project_program(files@, names@, node_ids@),
{
    let bodies = collect_program_calls(files, names);
    Program {
        names,
        files,
        node_ids,
        definitions: callable_definitions(files, names),
        calls: bodies.calls,
        creations: bodies.creations,
    }
}

/// The graphs of all definitions are graphs.
pub open spec fn graphs_ok(definitions: Map<Seq<char>, DefinitionView>) -> bool {
    forall|id: Seq<char>| #[trigger]
        definitions.contains_key(id) ==> graph_ok(definitions[id].graph)
}

impl<'a> Program<'a> {
    fn are_graphs_ok(&self) -> (r: bool)
        ensures
            r == graphs_ok(self@.definitions),
    {
        let n: usize = self.definitions.len();
        let ghost ids = self.definitions.sequence();
        let mut i: usize = 0;
        while i < n
            invariant
                i <= n,
                n == ids.len(),
                ids == self.definitions.sequence(),
                forall|j: int|
                    0 <= j < i ==> graph_ok(
                        *self.definitions@[#[trigger] ids[j]].graph,
                    ),
            decreases n - i,
        {
            let definition = self.definitions.value_at(i);
            if !definition.graph.is_ok() {
                assert(self@.definitions.contains_key(ids[i as int]));
                return false;
            }
            i += 1;
        }
        assert forall|id: Seq<char>| #[trigger] self@.definitions.contains_key(id) implies graph_ok(
            self@.definitions[id].graph,
        ) by {
            assert(self.definitions@.dom().contains(id));
            assert(ids.to_set().contains(id));
            let j = choose|j: int| 0 <= j < ids.len() && ids[j] == id;
            assert(graph_ok(*self.definitions@[ids[j]].graph));
        }
        true
    }
}

/// A project can be analyzed when its graphs are graphs.
pub proof fn project_program_is_ok(
    files: Seq<FileFacts>,
    names: NamesView,
    node_ids: Map<SpanKey, Seq<char>>,
)
    ensures
        program_ok(project_program(files, names, node_ids)) <==> graphs_ok(
            project_definitions(files, names),
        ),
{
    let program = project_program(files, names, node_ids);
    definitions_lie_in_files(files, names);
    project_calls_lie_in_files(files, names);
    if program_ok(program) {
        assert forall|id: Seq<char>| #[trigger]
            program.definitions.contains_key(id) implies graph_ok(
            program.definitions[id].graph,
        ) by {}
    }
}

/// What is wrong with what is known of a project, where something is.
pub open spec fn fault_in(
    files: Seq<FileFacts>,
    types: Seq<TypeFact>,
    lints: Seq<LintFact>,
) -> Option<InspectErrorView> {
    if types.len() > 0x1_0000_0000 || !types_closed(types) || !numbers_ok(files, types.len()) {
        Some(InspectErrorView::UnknownType)
    } else if !edits_known(files, lints) {
        Some(InspectErrorView::UnknownFile)
    } else {
        None
    }
}

fn find_fault(files: &Vec<FileFacts>, types: &Vec<TypeFact>, lints: &Vec<LintFact>) -> (r: Option<
    InspectError,
>)
    ensures
        opt_view(r) == fault_in(files@, types@, lints@),
        r is None ==> types@.len() <= 0x1_0000_0000,
{
    if types.len() as u64 > 0x1_0000_0000 || !are_types_closed(types) || !are_numbers_ok(
        files,
        types.len(),
    ) {
        Some(InspectError::UnknownType)
    } else if !are_edits_known(files, lints) {
        Some(InspectError::UnknownFile)
    } else {
        None
    }
}

/// The names of a project.
pub open spec fn names_of(files: Seq<FileFacts>, types: Seq<TypeFact>) -> NamesView {
    project_names(files, types, lambdas_of(files), all_uses(files))
}

/// The lambdas of a project.
pub open spec fn lambdas_of(files: Seq<FileFacts>) -> Seq<LambdaView> {
    lambdas_from(files, project_forest(files).nodes, 0, Seq::empty())
}

/// The tables that the references of a project are made with.
pub open spec fn indexes_of(files: Seq<FileFacts>, names: NamesView) -> IndexesView {
    IndexesView {
        ids: names.symbol_ids,
        locals: local_ids_from(files, 0, Map::empty()),
        places: project_forest(files).places,
        located: names.located,
        nodes: project_forest(files).nodes,
    }
}

/// The tables that the graphs of a project are shown with.
pub open spec fn graph_tables_of(files: Seq<FileFacts>, names: NamesView) -> GraphTablesView {
    GraphTablesView {
        ids: names.symbol_ids,
        lambda_ids: names.lambda_ids,
        locals: local_ids_from(files, 0, Map::empty()),
        places: project_forest(files).places,
        nodes: project_forest(files).nodes,
    }
}

/// The snapshot of a project of which the calls are analyzed. The files are in the order of
/// their paths.
pub open spec fn snapshot_of(
    root: Seq<Seq<char>>,
    files: Seq<FileFacts>,
    types: Seq<TypeFact>,
    errors: Seq<Seq<char>>,
    lints: Seq<LintFact>,
    control_flow: ControlFlowScope,
    analysis: AnalysisView,
) -> ProjectSnapshotView {
    let names = names_of(files, types);
    let forest = project_forest(files);
    let typed = project_types(
        TypingView { types, ids: names.symbol_ids, places: forest.places },
        files,
    );
    let found = references_of(files, all_uses(files), indexes_of(files, names));
    let call_sites = normalized_sites(analysis.call_sites);
    ProjectSnapshotView {
        version: current_version(),
        root: path_text(root),
        files: source_files_from(files, 0, Seq::empty()),
        nodes: forest.nodes,
        symbols: symbols_with_lambdas(
            files,
            sorted_symbols(
                files,
                names.symbol_ids,
                full_names_from(files, 0, Map::empty()),
                forest.places,
            ),
            lambdas_of(files),
            names.symbol_ids,
        ),
        references: found.references,
        resolutions: found.resolutions,
        types: typed.listed.types,
        node_types: typed.node_types,
        constant_values: constant_values(files, names.symbol_ids),
        control_flow_graphs: project_graphs(graph_tables_of(files, names), control_flow, files),
        call_sites,
        call_graph: call_graph_of(call_sites),
        diagnostics: stable_sorted::<Diagnostic>(
            file_diagnostics_from(files, 0, Seq::empty()) + found.diagnostics
                + lint_diagnostics_from(files, lints, 0, Seq::empty())
                + project_diagnostics_from(errors, 0, Seq::empty()),
        ),
    }
}

/// The snapshot of a project, or why there is none.
pub open spec fn built(facts: ProjectFacts) -> Result<ProjectSnapshotView, InspectErrorView> {
    let files = stable_sorted::<FileFacts>(facts.files@);
    let types = facts.types@;
    match fault_in(files, types, facts.lints@) {
        Some(error) => Err(error),
        None => {
            let program = project_program(
                files,
                names_of(files, types),
                project_forest(files).places,
            );
            if !graphs_ok(program.definitions) {
                Err(InspectErrorView::BrokenGraph)
            } else {
                match program_analysis(program) {
                    None => Err(InspectErrorView::Unsettled),
                    Some(analysis) => Ok(
                        snapshot_of(
                            facts.root@,
                            files,
                            types,
                            views(facts.errors@),
                            facts.lints@,
                            facts.control_flow,
                            analysis,
                        ),
                    ),
                }
            }
        },
    }
}

fn join_lists(
    first: Vec<Diagnostic>,
    second: Vec<Diagnostic>,
    third: Vec<Diagnostic>,
    fourth: Vec<Diagnostic>,
) -> (r: Vec<Diagnostic>)
    ensures
        views(r@) == views(first@) + views(second@) + views(third@) + views(fourth@),
{
    let mut out = first;
    let mut next = second;
    out.append(&mut next);
    let mut next = third;
    out.append(&mut next);
    let mut next = fourth;
    out.append(&mut next);
    out
}

/// The snapshot of a project, or why there is none.
pub fn build(facts: ProjectFacts) -> (r: Result<ProjectSnapshot, InspectError>)
    ensures
        result_view(r) == built(facts),
{
    let files = sort_files(facts.files);
    let types = facts.types;
    if let Some(error) = find_fault(&files, &types, &facts.lints) {
        return Err(error);
    }
    let forest = collect_forest(&files);
    let lambdas = collect_lambdas(&files, &forest.nodes);
    let uses = collect_uses(&files);
    let names = collect_names(&files, &types, &lambdas, &uses);
    let program = assemble(&files, &names, &forest.places);
    if !program.are_graphs_ok() {
        return Err(InspectError::BrokenGraph);
    }
    proof {
        project_program_is_ok(files@, names@, forest.places@);
    }
    let analysis = match program.collect_program_call_sites() {
        Some(analysis) => analysis,
        None => {
            return Err(InspectError::Unsettled);
        },
    };
    let mut call_sites = analysis.call_sites;
    normalize_call_sites(&mut call_sites);
    let locals = collect_local_ids(&files);
    let full_names = collect_full_names(&files);
    let symbols = collect_lambda_symbols(
        &files,
        collect_symbols(&files, &names.symbol_ids, &full_names, &forest.places),
        &lambdas,
        &names.symbol_ids,
    );
    let indexes = Indexes {
        ids: &names.symbol_ids,
        locals: &locals,
        places: &forest.places,
        located: &names.located,
        nodes: &forest.nodes,
    };
    assert(indexes@ =~= indexes_of(files@, names@));
    let found = collect_references(&files, &uses, &indexes);
    let tables = GraphTables {
        ids: &names.symbol_ids,
        lambda_ids: &names.lambda_ids,
        locals: &locals,
        places: &forest.places,
        nodes: &forest.nodes,
    };
    assert(tables@ =~= graph_tables_of(files@, names@));
    let control_flow_graphs = tables.collect_control_flow_graphs(facts.control_flow, &files);
    let typing = Typing { types: &types, ids: &names.symbol_ids, places: &forest.places };
    let typed = typing.collect(&files);
    let diagnostics = sort_stably(
        join_lists(
            collect_file_diagnostics(&files),
            found.diagnostics,
            collect_lint_diagnostics(&files, &facts.lints),
            collect_project_diagnostics(&facts.errors),
        ),
    );
    let graph = call_graph(&call_sites);
    let snapshot = ProjectSnapshot {
        version: VersionInfo::current(),
        root: facts.root.text(),
        files: collect_source_files(&files),
        constant_values: collect_constant_values(&files, &names.symbol_ids),
        symbols,
        references: found.references,
        resolutions: found.resolutions,
        types: typed.builder.types,
        node_types: typed.node_types,
        control_flow_graphs,
        call_sites,
        call_graph: graph,
        diagnostics,
        nodes: forest.nodes,
    };
    assert(snapshot@ =~= snapshot_of(
        facts.root@,
        files@,
        types@,
        views(facts.errors@),
        facts.lints@,
        facts.control_flow,
        analysis@,
    ));
    Ok(snapshot)
}

} // verus!
