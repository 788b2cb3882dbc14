//! What a project is made of, before it is analyzed.
use crate::model::ControlFlowScope;
use crate::path::{
    has_extension, lies_in, normal_logical_path, normalize_logical_path, path_text, result_view,
    LogicalPath, PathError, PathErrorView,
};
use crate::tables::{ascending, is_ascending, lemma_ascending, lemma_taken, Key, KeySet, Table};
use crate::text::{opt_view, views};
use vstd::prelude::*;
use vstd::string::*;

verus! {

broadcast use crate::text::group_views;

/// The files of a project, and where its analysis starts.
#[derive(Debug)]
pub struct ProjectInput {
    pub root: String,
    /// Source text by path.
    pub files: Table<String, String>,
    pub entrypoints: Vec<String>,
    pub stdlib_root: Option<String>,
    pub acton_stdlib_root: Option<String>,
    /// Paths by the name under which they are imported.
    pub import_mappings: Table<String, String>,
    pub control_flow: ControlFlowScope,
}

/// Why a project cannot be inspected.
#[verifier::ext_equal]
pub enum InspectErrorView {
    Path(PathErrorView),
    Duplicate { path: Seq<char> },
    NoFiles,
    NoEntrypoints,
    MissingEntrypoint { path: Seq<char> },
    UnknownFile,
    UnknownType,
    BrokenGraph,
    Unsettled,
}

/// Why a project cannot be inspected.
#[derive(Debug)]
pub enum InspectError {
    Path(PathError),
    /// Two files have the same normalized path.
    Duplicate { path: String },
    NoFiles,
    NoEntrypoints,
    /// An entrypoint is not one of the files.
    MissingEntrypoint { path: String },
    /// A finding lies in a file that is not part of the project.
    UnknownFile,
    /// Something has a type that is not one of the types of the project.
    UnknownType,
    /// A control-flow graph speaks of nodes that it does not have.
    BrokenGraph,
    /// The values of locals did not settle.
    Unsettled,
}

impl View for InspectError {
    type V = InspectErrorView;

    open spec fn view(&self) -> InspectErrorView {
        match *self {
            InspectError::Path(error) => InspectErrorView::Path(error@),
            InspectError::Duplicate { path } => InspectErrorView::Duplicate { path: path@ },
            InspectError::NoFiles => InspectErrorView::NoFiles,
            InspectError::NoEntrypoints => InspectErrorView::NoEntrypoints,
            InspectError::MissingEntrypoint { path } => InspectErrorView::MissingEntrypoint {
                path: path@,
            },
            InspectError::UnknownFile => InspectErrorView::UnknownFile,
            InspectError::UnknownType => InspectErrorView::UnknownType,
            InspectError::BrokenGraph => InspectErrorView::BrokenGraph,
            InspectError::Unsettled => InspectErrorView::Unsettled,
        }
    }
}

/// An error in words.
pub open spec fn error_text(error: InspectErrorView) -> Seq<char> {
    match error {
        InspectErrorView::Path(PathErrorView::Empty) => "logical paths must not be empty"@,
        InspectErrorView::Path(PathErrorView::Escapes { path }) => {
            "logical path escapes its root: "@ + path
        },
        InspectErrorView::Duplicate { path } => {
            "duplicate logical path after normalization: "@ + path
        },
        InspectErrorView::NoFiles => "files must contain at least one Tolk source"@,
        InspectErrorView::NoEntrypoints => "entrypoints must contain at least one Tolk source"@,
        InspectErrorView::MissingEntrypoint { path } => {
            "entrypoint is not present in files: "@ + path
        },
        InspectErrorView::UnknownFile => "a finding lies in a file outside the project"@,
        InspectErrorView::UnknownType => "a type is not one of the types of the project"@,
        InspectErrorView::BrokenGraph => "a control-flow graph lacks some of its nodes"@,
        InspectErrorView::Unsettled => "callable values did not settle"@,
    }
}

fn with_path(text: &str, path: &String) -> (r: String)
    ensures
        r@ == text@ + path@,
{
    let mut out = text.to_owned();
    out.append(path.as_str());
    out
}

impl InspectError {
    /// The error in words.
    pub fn message(&self) -> (r: String)
        ensures
            r@ == error_text(self@),
    {
        match self {
            InspectError::Path(PathError::Empty) => "logical paths must not be empty".to_owned(),
            InspectError::Path(PathError::Escapes { path }) => with_path(
                "logical path escapes its root: ",
                path,
            ),
            InspectError::Duplicate { path } => with_path(
                "duplicate logical path after normalization: ",
                path,
            ),
            InspectError::NoFiles => "files must contain at least one Tolk source".to_owned(),
            InspectError::NoEntrypoints => {
                "entrypoints must contain at least one Tolk source".to_owned()
            },
            InspectError::MissingEntrypoint { path } => with_path(
                "entrypoint is not present in files: ",
                path,
            ),
            InspectError::UnknownFile => "a finding lies in a file outside the project".to_owned(),
            InspectError::UnknownType => {
                "a type is not one of the types of the project".to_owned()
            },
            InspectError::BrokenGraph => "a control-flow graph lacks some of its nodes".to_owned(),
            InspectError::Unsettled => "callable values did not settle".to_owned(),
        }
    }
}

/// A project with normalized paths.
#[verifier::ext_equal]
pub struct PlanView {
    pub root: Seq<Seq<char>>,
    pub stdlib_root: Option<Seq<Seq<char>>>,
    pub acton_root: Option<Seq<Seq<char>>>,
    pub files: Map<Seq<Seq<char>>, Seq<char>>,
    pub roots: Seq<Seq<Seq<char>>>,
    pub mappings: Map<Seq<char>, Seq<char>>,
    pub control_flow: ControlFlowScope,
}

/// A project with normalized paths.
#[derive(Debug)]
pub struct ProjectPlan {
    pub root: LogicalPath,
    pub stdlib_root: Option<LogicalPath>,
    pub acton_root: Option<LogicalPath>,
    /// Source text by path.
    pub files: Table<LogicalPath, String>,
    /// The files at which the analysis starts, each once, in ascending order.
    pub roots: Vec<LogicalPath>,
    pub mappings: Table<String, String>,
    pub control_flow: ControlFlowScope,
}

impl View for ProjectPlan {
    type V = PlanView;

    open spec fn view(&self) -> PlanView {
        PlanView {
            root: self.root@,
            stdlib_root: opt_view(self.stdlib_root),
            acton_root: opt_view(self.acton_root),
            files: self.files@,
            roots: views(self.roots@),
            mappings: self.mappings@,
            control_flow: self.control_flow,
        }
    }
}

/// The directory that is searched for the standard library.
pub open spec fn library_directory(plan: PlanView) -> Seq<char> {
    match plan.stdlib_root {
        Some(path) => path_text(path),
        None => path_text(plan.root.push(".__tolk_inspect_no_stdlib__"@)),
    }
}

/// A path that may be missing.
pub open spec fn optional_path(root: Seq<char>, value: Option<Seq<char>>) -> Result<
    Option<Seq<Seq<char>>>,
    PathErrorView,
> {
    match value {
        Some(text) => match normal_logical_path(root, text) {
            Ok(path) => Ok(Some(path)),
            Err(error) => Err(error),
        },
        None => Ok(None),
    }
}

/// The files with those under the keys from position `i` on.
pub open spec fn files_from(
    files: Map<Seq<char>, Seq<char>>,
    keys: Seq<Seq<char>>,
    root: Seq<char>,
    i: int,
    acc: Map<Seq<Seq<char>>, Seq<char>>,
) -> Result<Map<Seq<Seq<char>>, Seq<char>>, InspectErrorView>
    decreases keys.len() - i,
{
    if 0 <= i < keys.len() {
        match normal_logical_path(root, keys[i]) {
            Ok(path) => if acc.contains_key(path) {
                Err(InspectErrorView::Duplicate { path: path_text(path) })
            } else {
                files_from(files, keys, root, i + 1, acc.insert(path, files[keys[i]]))
            },
            Err(error) => Err(InspectErrorView::Path(error)),
        }
    } else {
        Ok(acc)
    }
}

/// The normalized paths of values from position `i` on.
pub open spec fn paths_from(
    values: Seq<Seq<char>>,
    root: Seq<char>,
    i: int,
    acc: Seq<Seq<Seq<char>>>,
) -> Result<Seq<Seq<Seq<char>>>, PathErrorView>
    decreases values.len() - i,
{
    if 0 <= i < values.len() {
        match normal_logical_path(root, values[i]) {
            Ok(path) => paths_from(values, root, i + 1, acc.push(path)),
            Err(error) => Err(error),
        }
    } else {
        Ok(acc)
    }
}

/// A path lies outside a directory, or there is none.
pub open spec fn outside(path: Seq<Seq<char>>, directory: Option<Seq<Seq<char>>>) -> bool {
    match directory {
        Some(at) => !lies_in(path, at),
        None => true,
    }
}

/// A file at which the analysis starts when no entrypoint is given.
pub open spec fn is_default_root(
    path: Seq<Seq<char>>,
    stdlib: Option<Seq<Seq<char>>>,
    acton: Option<Seq<Seq<char>>>,
) -> bool {
    has_extension(path, "tolk"@) && outside(path, stdlib) && outside(path, acton)
}

/// The files at which the analysis starts: the entrypoints, or else every source file outside
/// the libraries.
pub open spec fn root_set(
    files: Map<Seq<Seq<char>>, Seq<char>>,
    entrypoints: Seq<Seq<Seq<char>>>,
    stdlib: Option<Seq<Seq<char>>>,
    acton: Option<Seq<Seq<char>>>,
) -> Set<Seq<Seq<char>>> {
    if entrypoints.len() > 0 {
        entrypoints.to_set()
    } else {
        files.dom().filter(|path: Seq<Seq<char>>| is_default_root(path, stdlib, acton))
    }
}

/// The first path from position `i` on that is not a file.
pub open spec fn missing_from(
    roots: Seq<Seq<Seq<char>>>,
    files: Map<Seq<Seq<char>>, Seq<char>>,
    i: int,
) -> Option<Seq<Seq<char>>>
    decreases roots.len() - i,
{
    if 0 <= i < roots.len() {
        if files.contains_key(roots[i]) {
            missing_from(roots, files, i + 1)
        } else {
            Some(roots[i])
        }
    } else {
        None
    }
}

/// The import mappings with those under the keys from position `i` on.
pub open spec fn mappings_from(
    mappings: Map<Seq<char>, Seq<char>>,
    keys: Seq<Seq<char>>,
    root: Seq<char>,
    i: int,
    acc: Map<Seq<char>, Seq<char>>,
) -> Result<Map<Seq<char>, Seq<char>>, PathErrorView>
    decreases keys.len() - i,
{
    if 0 <= i < keys.len() {
        match normal_logical_path(root, mappings[keys[i]]) {
            Ok(path) => mappings_from(
                mappings,
                keys,
                root,
                i + 1,
                acc.insert(keys[i], path_text(path)),
            ),
            Err(error) => Err(error),
        }
    } else {
        Ok(acc)
    }
}

/// A project with its roots and its mappings.
pub open spec fn planned_roots(
    input: ProjectInput,
    root: Seq<Seq<char>>,
    stdlib: Option<Seq<Seq<char>>>,
    acton: Option<Seq<Seq<char>>>,
    files: Map<Seq<Seq<char>>, Seq<char>>,
) -> Result<PlanView, InspectErrorView> {
    let at = path_text(root);
    match paths_from(views(input.entrypoints@), at, 0, Seq::empty()) {
        Err(error) => Err(InspectErrorView::Path(error)),
        Ok(entrypoints) => {
            let roots = ascending::<LogicalPath>(root_set(files, entrypoints, stdlib, acton));
            if roots.len() == 0 {
                Err(InspectErrorView::NoEntrypoints)
            } else {
                match missing_from(roots, files, 0) {
                    Some(path) => Err(
                        InspectErrorView::MissingEntrypoint { path: path_text(path) },
                    ),
                    None => match mappings_from(
                        input.import_mappings@,
                        ascending::<String>(input.import_mappings@.dom()),
                        at,
                        0,
                        Map::empty(),
                    ) {
                        Err(error) => Err(InspectErrorView::Path(error)),
                        Ok(mappings) => Ok(
                            PlanView {
                                root,
                                stdlib_root: stdlib,
                                acton_root: acton,
                                files,
                                roots,
                                mappings,
                                control_flow: input.control_flow,
                            },
                        ),
                    },
                }
            }
        },
    }
}

/// A project with normalized paths; the first thing that is wrong with it otherwise.
pub open spec fn planned(input: ProjectInput) -> Result<PlanView, InspectErrorView> {
    match normal_logical_path("/"@, input.root@) {
        Err(error) => Err(InspectErrorView::Path(error)),
        Ok(root) => {
            let at = path_text(root);
            match optional_path(at, opt_view(input.stdlib_root)) {
                Err(error) => Err(InspectErrorView::Path(error)),
                Ok(stdlib) => match optional_path(at, opt_view(input.acton_stdlib_root)) {
                    Err(error) => Err(InspectErrorView::Path(error)),
                    Ok(acton) => match files_from(
                        input.files@,
                        ascending::<String>(input.files@.dom()),
                        at,
                        0,
                        Map::empty(),
                    ) {
                        Err(error) => Err(error),
                        Ok(files) => if files == Map::<Seq<Seq<char>>, Seq<char>>::empty() {
                            Err(InspectErrorView::NoFiles)
                        } else {
                            planned_roots(input, root, stdlib, acton, files)
                        },
                    },
                },
            }
        },
    }
}

pub proof fn lemma_files_finite(
    files: Map<Seq<char>, Seq<char>>,
    keys: Seq<Seq<char>>,
    root: Seq<char>,
    i: int,
    acc: Map<Seq<Seq<char>>, Seq<char>>,
)
    requires
        acc.dom().finite(),
    ensures
        files_from(files, keys, root, i, acc) matches Ok(found) ==> found.dom().finite(),
    decreases keys.len() - i,
{
    if 0 <= i < keys.len() {
        match normal_logical_path(root, keys[i]) {
            Ok(path) => {
                lemma_files_finite(
                    files,
                    keys,
                    root,
                    i + 1,
                    acc.insert(path, files[keys[i]]),
                );
            },
            Err(_) => {},
        }
    }
}

proof fn lemma_none_missing(
    roots: Seq<Seq<Seq<char>>>,
    files: Map<Seq<Seq<char>>, Seq<char>>,
    i: int,
    k: int,
)
    requires
        missing_from(roots, files, i) is None,
        0 <= i <= k < roots.len(),
    ensures
        files.contains_key(roots[k]),
    decreases k - i,
{
    if i < k {
        lemma_none_missing(roots, files, i + 1, k);
    }
}

/// The analysis of a project starts at one file at least, at each file once, in ascending order,
/// and only at files of the project.
pub proof fn roots_are_files(input: ProjectInput)
    ensures
        planned(input) matches Ok(plan) ==> {
            &&& plan.roots.len() > 0
            &&& is_ascending::<LogicalPath>(plan.roots)
            &&& forall|k: int|
                0 <= k < plan.roots.len() ==> plan.files.contains_key(#[trigger] plan.roots[k])
        },
{
    match planned(input) {
        Ok(plan) => {
            let at = path_text(plan.root);
            lemma_files_finite(
                input.files@,
                ascending::<String>(input.files@.dom()),
                at,
                0,
                Map::empty(),
            );
            let entrypoints = paths_from(views(input.entrypoints@), at, 0, Seq::empty())->Ok_0;
            let set = root_set(plan.files, entrypoints, plan.stdlib_root, plan.acton_root);
            lemma_ascending::<LogicalPath>(set);
            assert forall|k: int| 0 <= k < plan.roots.len() implies plan.files.contains_key(
                #[trigger] plan.roots[k],
            ) by {
                lemma_none_missing(plan.roots, plan.files, 0, k);
            }
        },
        Err(_) => {},
    }
}

fn optional_logical_path(root: &str, value: &Option<String>) -> (r: Result<
    Option<LogicalPath>,
    PathError,
>)
    ensures
        match (r, optional_path(root@, opt_view(*value))) {
            (Ok(a), Ok(b)) => opt_view(a) == b,
            (Err(a), Err(b)) => a@ == b,
            _ => false,
        },
{
    match value {
        Some(text) => match normalize_logical_path(root, text.as_str()) {
            Ok(path) => Ok(Some(path)),
            Err(error) => Err(error),
        },
        None => Ok(None),
    }
}

fn is_outside(path: &LogicalPath, directory: &Option<LogicalPath>) -> (r: bool)
    ensures
        r == outside(path@, opt_view(*directory)),
{
    match directory {
        Some(at) => !path.starts_with(at),
        None => true,
    }
}

fn collect_files(files: &Table<String, String>, root: &str) -> (r: Result<
    Table<LogicalPath, String>,
    InspectError,
>)
    ensures
        result_view(r) == files_from(
            files@,
            ascending::<String>(files@.dom()),
            root@,
            0,
            Map::empty(),
        ),
{
    let mut out: Table<LogicalPath, String> = Table::new();
    let ghost keys = ascending::<String>(files@.dom());
    let n: usize = files.len();
    let mut i: usize = 0;
    while i < n
        invariant
            i <= n,
            n == keys.len(),
            keys == files.sequence(),
            keys == ascending::<String>(files@.dom()),
            files_from(files@, keys, root@, 0, Map::empty()) == files_from(
                files@,
                keys,
                root@,
                i as int,
                out@,
            ),
        decreases n - i,
    {
        let key = files.key_at(i);
        let source = files.value_at(i);
        match normalize_logical_path(root, key.as_str()) {
            Ok(path) => {
                if out.contains_key(&path) {
                    return Err(InspectError::Duplicate { path: path.text() });
                }
                out.insert(path, source.clone());
            },
            Err(error) => {
                return Err(InspectError::Path(error));
            },
        }
        i += 1;
    }
    Ok(out)
}

fn collect_paths(values: &Vec<String>, root: &str) -> (r: Result<Vec<LogicalPath>, PathError>)
    ensures
        match (r, paths_from(views(values@), root@, 0, Seq::empty())) {
            (Ok(a), Ok(b)) => views(a@) == b,
            (Err(a), Err(b)) => a@ == b,
            _ => false,
        },
{
    let mut out: Vec<LogicalPath> = Vec::new();
    let n: usize = values.len();
    let mut i: usize = 0;
    while i < n
        invariant
            i <= n,
            n == values@.len(),
            paths_from(views(values@), root@, 0, Seq::empty()) == paths_from(
                views(values@),
                root@,
                i as int,
                views(out@),
            ),
        decreases n - i,
    {
        match normalize_logical_path(root, values[i].as_str()) {
            Ok(path) => {
                out.push(path);
            },
            Err(error) => {
                return Err(error);
            },
        }
        i += 1;
    }
    Ok(out)
}

fn collect_mappings(mappings: &Table<String, String>, root: &str) -> (r: Result<
    Table<String, String>,
    PathError,
>)
    ensures
        result_view(r) == mappings_from(
            mappings@,
            ascending::<String>(mappings@.dom()),
            root@,
            0,
            Map::empty(),
        ),
{
    let mut out: Table<String, String> = Table::new();
    let ghost keys = ascending::<String>(mappings@.dom());
    let n: usize = mappings.len();
    let mut i: usize = 0;
    while i < n
        invariant
            i <= n,
            n == keys.len(),
            keys == mappings.sequence(),
            keys == ascending::<String>(mappings@.dom()),
            mappings_from(mappings@, keys, root@, 0, Map::empty()) == mappings_from(
                mappings@,
                keys,
                root@,
                i as int,
                out@,
            ),
        decreases n - i,
    {
        let key = mappings.key_at(i);
        match normalize_logical_path(root, mappings.value_at(i).as_str()) {
            Ok(path) => {
                out.insert(key.clone(), path.text());
            },
            Err(error) => {
                return Err(error);
            },
        }
        i += 1;
    }
    Ok(out)
}

/// The files at which the analysis starts.
fn collect_roots(
    files: &Table<LogicalPath, String>,
    entrypoints: &Vec<LogicalPath>,
    stdlib: &Option<LogicalPath>,
    acton: &Option<LogicalPath>,
) -> (r: Vec<LogicalPath>)
    ensures
        views(r@) == ascending::<LogicalPath>(
            root_set(files@, views(entrypoints@), opt_view(*stdlib), opt_view(*acton)),
        ),
{
    let mut set: KeySet<LogicalPath> = KeySet::new();
    let ghost goal = root_set(files@, views(entrypoints@), opt_view(*stdlib), opt_view(*acton));
    let n: usize = entrypoints.len();
    if n > 0 {
        let ghost all = views(entrypoints@);
        let mut i: usize = 0;
        assert(all.take(0).to_set() =~= Set::<Seq<Seq<char>>>::empty());
        while i < n
            invariant
                i <= n,
                n == entrypoints@.len(),
                all == views(entrypoints@),
                set@ == all.take(i as int).to_set(),
            decreases n - i,
        {
            proof {
                lemma_taken(all, i as int);
            }
            set.insert(entrypoints[i].copy());
            i += 1;
        }
        assert(all.take(n as int) =~= all);
    } else {
        let ghost keep = |path: Seq<Seq<char>>|
            is_default_root(path, opt_view(*stdlib), opt_view(*acton));
        let ghost keys = files.sequence();
        let m: usize = files.len();
        let mut i: usize = 0;
        assert(set@ =~= keys.take(0).to_set().filter(keep));
        while i < m
            invariant
                i <= m,
                m == keys.len(),
                keys == files.sequence(),
                keep == (|path: Seq<Seq<char>>|
                    is_default_root(path, opt_view(*stdlib), opt_view(*acton))),
                set@ == keys.take(i as int).to_set().filter(keep),
            decreases m - i,
        {
            let path = files.key_at(i);
            let ghost before = set@;
            let kept = path.has_extension("tolk") && is_outside(path, stdlib) && is_outside(
                path,
                acton,
            );
            if kept {
                set.insert(path.copy());
            }
            proof {
                lemma_taken(keys, i as int);
                assert(set@ =~= keys.take(i + 1).to_set().filter(keep));
            }
            i += 1;
        }
        assert(keys.take(m as int) =~= keys);
        assert(set@ =~= goal);
    }
    let k: usize = set.len();
    let mut out: Vec<LogicalPath> = Vec::new();
    let mut j: usize = 0;
    while j < k
        invariant
            j <= k,
            k == set.sequence().len(),
            out@.len() == j,
            forall|l: int| 0 <= l < j ==> (#[trigger] out@[l])@ == set.sequence()[l],
        decreases k - j,
    {
        out.push(set.at(j).copy());
        j += 1;
    }
    assert(views(out@) =~= set.sequence());
    out
}

fn first_missing(roots: &Vec<LogicalPath>, files: &Table<LogicalPath, String>) -> (r: Option<usize>)
    ensures
        match r {
            Some(i) => i < roots@.len() && missing_from(views(roots@), files@, 0) == Some(
                roots@[i as int]@,
            ),
            None => missing_from(views(roots@), files@, 0) is None,
        },
{
    let n: usize = roots.len();
    let mut i: usize = 0;
    while i < n
        invariant
            i <= n,
            n == roots@.len(),
            missing_from(views(roots@), files@, 0) == missing_from(
                views(roots@),
                files@,
                i as int,
            ),
        decreases n - i,
    {
        if !files.contains_key(&roots[i]) {
            return Some(i);
        }
        i += 1;
    }
    None
}

/// Normalizes the paths of a project and finds the files at which its analysis starts.
pub fn prepare(input: &ProjectInput) -> (r: Result<ProjectPlan, InspectError>)
    ensures
        result_view(r) == planned(*input),
{
    let root = match normalize_logical_path("/", input.root.as_str()) {
        Ok(root) => root,
        Err(error) => {
            return Err(InspectError::Path(error));
        },
    };
    let at = root.text();
    let stdlib_root = match optional_logical_path(at.as_str(), &input.stdlib_root) {
        Ok(path) => path,
        Err(error) => {
            return Err(InspectError::Path(error));
        },
    };
    let acton_root = match optional_logical_path(at.as_str(), &input.acton_stdlib_root) {
        Ok(path) => path,
        Err(error) => {
            return Err(InspectError::Path(error));
        },
    };
    let files = match collect_files(&input.files, at.as_str()) {
        Ok(files) => files,
        Err(error) => {
            return Err(error);
        },
    };
    let count: usize = files.len();
    if count == 0 {
        assert(files@ =~= Map::<Seq<Seq<char>>, Seq<char>>::empty());
        return Err(InspectError::NoFiles);
    }
    assert(files@ != Map::<Seq<Seq<char>>, Seq<char>>::empty()) by {
        assert(files.sequence().to_set().contains(files.sequence()[0]));
        assert(files@.contains_key(files.sequence()[0]));
    }
    let entrypoints = match collect_paths(&input.entrypoints, at.as_str()) {
        Ok(paths) => paths,
        Err(error) => {
            return Err(InspectError::Path(error));
        },
    };
    let roots = collect_roots(&files, &entrypoints, &stdlib_root, &acton_root);
    if roots.len() == 0 {
        assert(views(roots@).len() == 0);
        return Err(InspectError::NoEntrypoints);
    }
    assert(views(roots@).len() == roots@.len());
    match first_missing(&roots, &files) {
        Some(i) => {
            return Err(InspectError::MissingEntrypoint { path: roots[i].text() });
        },
        None => {},
    }
    let mappings = match collect_mappings(&input.import_mappings, at.as_str()) {
        Ok(mappings) => mappings,
        Err(error) => {
            return Err(InspectError::Path(error));
        },
    };
    let plan = ProjectPlan {
        root,
        stdlib_root,
        acton_root,
        files,
        roots,
        mappings,
        control_flow: input.control_flow,
    };
    Ok(plan)
}

impl ProjectPlan {
    /// The directory that is searched for the standard library.
    pub fn library_directory(&self) -> (r: String)
        ensures
            r@ == library_directory(self@),
    {
        match &self.stdlib_root {
            Some(path) => path.text(),
            None => {
                let mut path = self.root.copy();
                let ghost before = path@;
                path.parts.push(".__tolk_inspect_no_stdlib__".to_owned());
                assert(path@ =~= before.push(".__tolk_inspect_no_stdlib__"@));
                path.text()
            },
        }
    }
}

} // verus!
