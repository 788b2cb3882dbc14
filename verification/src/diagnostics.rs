//! The source files of a project, and what is wrong with them.
use crate::facts::{
    file_from, find_file, FileFacts, ImportFact, LintAnnotation, LintEdit, LintFact, LintFix,
    LintSeverity, LintTag, ParseError,
};
use crate::ids::Span;
use crate::model::{
    copy_text, Diagnostic, DiagnosticAnnotation, DiagnosticAnnotationView, DiagnosticEdit,
    DiagnosticEditView, DiagnosticFix, DiagnosticFixView, DiagnosticView, ImportInfo,
    ImportInfoView, SourceFile, SourceFileView, SourceKind, SourceLocation, SourceLocationView,
};
use crate::nodes::{node_id, node_id_text};
use crate::position::{byte_of_point, location, location_of, point_to_byte};
use crate::references::{make_diagnostic, plain_diagnostic};
use crate::symbols::span_location;
use crate::text::{opt_view, views};
use vstd::prelude::*;
use vstd::string::*;

verus! {

broadcast use crate::text::group_views;

/// The diagnostic of a place at which a file does not parse.
pub open spec fn parse_diagnostic(file: FileFacts, error: ParseError) -> DiagnosticView {
    let source = file.text.source@;
    plain_diagnostic(
        "parse"@,
        "tolk-syntax"@,
        "error"@,
        if error.missing {
            "missing-syntax"@
        } else {
            "unexpected-syntax"@
        },
        error.message@,
        Some(
            location_of(
                file.text.path@,
                source,
                byte_of_point(source, error.start_row as int, error.start_column as int),
                byte_of_point(source, error.end_row as int, error.end_column as int),
            ),
        ),
    )
}

/// The diagnostics of parse errors from position `i` on.
pub open spec fn parse_diagnostics_from(
    file: FileFacts,
    i: int,
    acc: Seq<DiagnosticView>,
) -> Seq<DiagnosticView>
    decreases file.errors@.len() - i,
{
    if 0 <= i < file.errors@.len() {
        parse_diagnostics_from(file, i + 1, acc.push(parse_diagnostic(file, file.errors@[i])))
    } else {
        acc
    }
}

/// The path of a file.
pub open spec fn path_of_file(files: Seq<FileFacts>, id: Option<u32>) -> Option<Seq<char>> {
    match id {
        Some(id) => match file_from(files, id, 0) {
            Some(at) => Some(files[at].text.path@),
            None => None,
        },
        None => None,
    }
}

/// An import.
pub open spec fn import_info(
    files: Seq<FileFacts>,
    file: FileFacts,
    import: ImportFact,
) -> ImportInfoView {
    ImportInfoView {
        path: import.path@,
        target_path: path_of_file(files, import.target),
        location: span_location(file, import.span),
    }
}

/// The imports of a file from position `i` on.
pub open spec fn imports_from(
    files: Seq<FileFacts>,
    file: FileFacts,
    i: int,
    acc: Seq<ImportInfoView>,
) -> Seq<ImportInfoView>
    decreases file.imports@.len() - i,
{
    if 0 <= i < file.imports@.len() {
        imports_from(files, file, i + 1, acc.push(import_info(files, file, file.imports@[i])))
    } else {
        acc
    }
}

/// The diagnostics of the imports from position `i` on that lead nowhere.
pub open spec fn import_diagnostics_from(
    file: FileFacts,
    i: int,
    acc: Seq<DiagnosticView>,
) -> Seq<DiagnosticView>
    decreases file.imports@.len() - i,
{
    if 0 <= i < file.imports@.len() {
        let import = file.imports@[i];
        let next = if import.target is None {
            acc.push(
                plain_diagnostic(
                    "project"@,
                    "tolk-resolver"@,
                    "error"@,
                    "unresolved-import"@,
                    "cannot resolve import `"@ + import.path@ + "`"@,
                    Some(span_location(file, import.span)),
                ),
            )
        } else {
            acc
        };
        import_diagnostics_from(file, i + 1, next)
    } else {
        acc
    }
}

/// A source file.
pub open spec fn source_file(files: Seq<FileFacts>, file: FileFacts) -> SourceFileView {
    SourceFileView {
        path: file.text.path@,
        source: file.text.source@,
        root_node: node_id(file.text.path@, file.text.root, 0),
        source_kind: file.source_kind,
        imports: imports_from(files, file, 0, Seq::empty()),
    }
}

/// The source files from position `i` on.
pub open spec fn source_files_from(
    files: Seq<FileFacts>,
    i: int,
    acc: Seq<SourceFileView>,
) -> Seq<SourceFileView>
    decreases files.len() - i,
{
    if 0 <= i < files.len() {
        source_files_from(files, i + 1, acc.push(source_file(files, files[i])))
    } else {
        acc
    }
}

/// The diagnostics of the files from position `i` on.
pub open spec fn file_diagnostics_from(
    files: Seq<FileFacts>,
    i: int,
    acc: Seq<DiagnosticView>,
) -> Seq<DiagnosticView>
    decreases files.len() - i,
{
    if 0 <= i < files.len() {
        file_diagnostics_from(
            files,
            i + 1,
            import_diagnostics_from(files[i], 0, parse_diagnostics_from(files[i], 0, acc)),
        )
    } else {
        acc
    }
}

fn find_path_of_file(files: &Vec<FileFacts>, id: Option<u32>) -> (r: Option<String>)
    ensures
        opt_view(r) == path_of_file(files@, id),
{
    match id {
        Some(id) => match find_file(files, id) {
            Some(at) => Some(files[at].text.path.clone()),
            None => None,
        },
        None => None,
    }
}

fn push_parse_diagnostics(file: &FileFacts, out: &mut Vec<Diagnostic>)
    ensures
        views(final(out)@) == parse_diagnostics_from(*file, 0, views(old(out)@)),
{
    let ghost start = views(out@);
    let n: usize = file.errors.len();
    let mut i: usize = 0;
    while i < n
        invariant
            i <= n,
            n == file.errors@.len(),
            parse_diagnostics_from(*file, 0, start) == parse_diagnostics_from(
                *file,
                i as int,
                views(out@),
            ),
        decreases n - i,
    {
        let error = &file.errors[i];
        let source = file.text.source.as_str();
        let start_byte: usize = point_to_byte(source, error.start_row, error.start_column);
        let end_byte: usize = point_to_byte(source, error.end_row, error.end_column);
        let code = if error.missing {
            "missing-syntax"
        } else {
            "unexpected-syntax"
        };
        out.push(
            make_diagnostic(
                "parse",
                "tolk-syntax",
                "error",
                code,
                error.message.clone(),
                Some(location(file.text.path.as_str(), source, start_byte, end_byte)),
            ),
        );
        i += 1;
    }
}

fn push_import_diagnostics(file: &FileFacts, out: &mut Vec<Diagnostic>)
    ensures
        views(final(out)@) == import_diagnostics_from(*file, 0, views(old(out)@)),
{
    let ghost start = views(out@);
    let n: usize = file.imports.len();
    let mut i: usize = 0;
    while i < n
        invariant
            i <= n,
            n == file.imports@.len(),
            import_diagnostics_from(*file, 0, start) == import_diagnostics_from(
                *file,
                i as int,
                views(out@),
            ),
        decreases n - i,
    {
        let import = &file.imports[i];
        if import.target.is_none() {
            let mut message = "cannot resolve import `".to_owned();
            message.append(import.path.as_str());
            message.append("`");
            out.push(
                make_diagnostic(
                    "project",
                    "tolk-resolver",
                    "error",
                    "unresolved-import",
                    message,
                    Some(file.location(import.span)),
                ),
            );
        }
        i += 1;
    }
}

fn make_source_file(files: &Vec<FileFacts>, file: &FileFacts) -> (r: SourceFile)
    ensures
        r@ == source_file(files@, *file),
{
    let mut imports: Vec<ImportInfo> = Vec::new();
    let n: usize = file.imports.len();
    let mut i: usize = 0;
    while i < n
        invariant
            i <= n,
            n == file.imports@.len(),
            imports_from(files@, *file, 0, Seq::empty()) == imports_from(
                files@,
                *file,
                i as int,
                views(imports@),
            ),
        decreases n - i,
    {
        let import = &file.imports[i];
        imports.push(
            ImportInfo {
                path: import.path.clone(),
                target_path: find_path_of_file(files, import.target),
                location: file.location(import.span),
            },
        );
        i += 1;
    }
    SourceFile {
        path: file.text.path.clone(),
        source: file.text.source.clone(),
        root_node: node_id_text(file.text.path.as_str(), &file.text.root, 0),
        source_kind: file.source_kind,
        imports,
    }
}

/// The source files of a project.
pub fn collect_source_files(files: &Vec<FileFacts>) -> (r: Vec<SourceFile>)
    ensures
        views(r@) == source_files_from(files@, 0, Seq::empty()),
{
    let mut out: Vec<SourceFile> = Vec::new();
    let n: usize = files.len();
    let mut i: usize = 0;
    while i < n
        invariant
            i <= n,
            n == files@.len(),
            source_files_from(files@, 0, Seq::empty()) == source_files_from(
                files@,
                i as int,
                views(out@),
            ),
        decreases n - i,
    {
        out.push(make_source_file(files, &files[i]));
        i += 1;
    }
    out
}

/// The diagnostics of the files of a project.
pub fn collect_file_diagnostics(files: &Vec<FileFacts>) -> (r: Vec<Diagnostic>)
    ensures
        views(r@) == file_diagnostics_from(files@, 0, Seq::empty()),
{
    let mut out: Vec<Diagnostic> = Vec::new();
    let n: usize = files.len();
    let mut i: usize = 0;
    while i < n
        invariant
            i <= n,
            n == files@.len(),
            file_diagnostics_from(files@, 0, Seq::empty()) == file_diagnostics_from(
                files@,
                i as int,
                views(out@),
            ),
        decreases n - i,
    {
        push_parse_diagnostics(&files[i], &mut out);
        push_import_diagnostics(&files[i], &mut out);
        i += 1;
    }
    out
}

/// A file from position `i` on with a number belongs to the workspace.
pub open spec fn in_workspace_from(files: Seq<FileFacts>, id: u32, i: int) -> bool
    decreases files.len() - i,
{
    if 0 <= i < files.len() {
        (files[i].id == id && files[i].source_kind is Workspace) || in_workspace_from(
            files,
            id,
            i + 1,
        )
    } else {
        false
    }
}

fn is_in_workspace(files: &Vec<FileFacts>, id: u32) -> (r: bool)
    ensures
        r == in_workspace_from(files@, id, 0),
{
    let n: usize = files.len();
    let mut i: usize = 0;
    while i < n
        invariant
            i <= n,
            n == files@.len(),
            in_workspace_from(files@, id, 0) == in_workspace_from(files@, id, i as int),
        decreases n - i,
    {
        if files[i].id == id {
            if let SourceKind::Workspace = files[i].source_kind {
                return true;
            }
        }
        i += 1;
    }
    false
}

/// The place of a span of the file with a number.
pub open spec fn place_in(files: Seq<FileFacts>, id: u32, span: Span) -> SourceLocationView {
    match file_from(files, id, 0) {
        Some(at) => span_location(files[at], span),
        None => location_of(""@, ""@, span.start as int, span.end as int),
    }
}

fn find_place(files: &Vec<FileFacts>, id: u32, span: Span) -> (r: SourceLocation)
    ensures
        r@ == place_in(files@, id, span),
{
    match find_file(files, id) {
        Some(at) => files[at].location(span),
        None => location("", "", span.start as usize, span.end as usize),
    }
}

/// The tag of an annotation in words.
pub open spec fn tag_text(tag: LintTag) -> Seq<char> {
    match tag {
        LintTag::Unnecessary => "unnecessary"@,
        LintTag::Deprecated => "deprecated"@,
    }
}

/// An annotation of a finding.
pub open spec fn annotation_of(
    files: Seq<FileFacts>,
    file: u32,
    annotation: LintAnnotation,
) -> DiagnosticAnnotationView {
    DiagnosticAnnotationView {
        location: place_in(files, file, annotation.span),
        message: opt_view(annotation.message),
        primary: annotation.primary,
        tags: annotation.tags@.map_values(|tag: LintTag| tag_text(tag)),
    }
}

/// An edit of a fix.
pub open spec fn edit_of(files: Seq<FileFacts>, edit: LintEdit) -> DiagnosticEditView {
    DiagnosticEditView {
        location: place_in(files, edit.file, edit.span),
        replacement: edit.replacement@,
    }
}

/// A fix of a finding.
pub open spec fn fix_of(files: Seq<FileFacts>, fix: LintFix) -> DiagnosticFixView {
    DiagnosticFixView {
        message: fix.message@,
        applicability: if fix.automatic {
            "automatic"@
        } else {
            "manual"@
        },
        edits: fix.edits@.map_values(|edit: LintEdit| edit_of(files, edit)),
    }
}

/// The severity of a finding in words.
pub open spec fn severity_text(severity: LintSeverity) -> Seq<char> {
    match severity {
        LintSeverity::Fatal | LintSeverity::Error => "error"@,
        LintSeverity::Warning => "warning"@,
        LintSeverity::Info => "information"@,
        LintSeverity::Help => "hint"@,
    }
}

/// The first primary annotation from position `i` on.
pub open spec fn primary_from(annotations: Seq<LintAnnotation>, i: int) -> Option<int>
    decreases annotations.len() - i,
{
    if 0 <= i < annotations.len() {
        if annotations[i].primary {
            Some(i)
        } else {
            primary_from(annotations, i + 1)
        }
    } else {
        None
    }
}

/// The place of a finding: that of its first primary annotation, or else of its first one.
pub open spec fn lint_place(files: Seq<FileFacts>, lint: LintFact) -> Option<SourceLocationView> {
    match primary_from(lint.annotations@, 0) {
        Some(at) => Some(place_in(files, lint.file, lint.annotations@[at].span)),
        None => if lint.annotations@.len() > 0 {
            Some(place_in(files, lint.file, lint.annotations@[0].span))
        } else {
            None
        },
    }
}

/// The diagnostic of a finding of the linter.
pub open spec fn lint_diagnostic(files: Seq<FileFacts>, lint: LintFact) -> DiagnosticView {
    DiagnosticView {
        phase: "lint"@,
        source: "tolk-linter"@,
        severity: severity_text(lint.severity),
        code: opt_view(lint.code),
        message: lint.message@,
        location: lint_place(files, lint),
        help: opt_view(lint.help),
        annotations: lint.annotations@.map_values(
            |annotation: LintAnnotation| annotation_of(files, lint.file, annotation),
        ),
        fixes: lint.fixes@.map_values(|fix: LintFix| fix_of(files, fix)),
    }
}

/// The diagnostics of the findings in the workspace from position `i` on.
pub open spec fn lint_diagnostics_from(
    files: Seq<FileFacts>,
    lints: Seq<LintFact>,
    i: int,
    acc: Seq<DiagnosticView>,
) -> Seq<DiagnosticView>
    decreases lints.len() - i,
{
    if 0 <= i < lints.len() {
        let next = if in_workspace_from(files, lints[i].file, 0) {
            acc.push(lint_diagnostic(files, lints[i]))
        } else {
            acc
        };
        lint_diagnostics_from(files, lints, i + 1, next)
    } else {
        acc
    }
}

/// The edits of the findings in the workspace lie in files of the project.
pub open spec fn edits_known(files: Seq<FileFacts>, lints: Seq<LintFact>) -> bool {
    forall|i: int, j: int, k: int|
        0 <= i < lints.len() && in_workspace_from(files, lints[i].file, 0) && 0 <= j
            < lints[i].fixes@.len() && 0 <= k < lints[i].fixes@[j].edits@.len() ==> file_from(
            files,
            (#[trigger] lints[i].fixes@[j].edits@[k]).file,
            0,
        ) is Some
}

/// Whether the edits of the findings in the workspace lie in files of the project.
pub fn are_edits_known(files: &Vec<FileFacts>, lints: &Vec<LintFact>) -> (r: bool)
    ensures
        r == edits_known(files@, lints@),
{
    let n: usize = lints.len();
    let mut i: usize = 0;
    while i < n
        invariant
            i <= n,
            n == lints@.len(),
            forall|p: int, j: int, k: int|
                0 <= p < i && in_workspace_from(files@, lints@[p].file, 0) && 0 <= j
                    < lints@[p].fixes@.len() && 0 <= k < lints@[p].fixes@[j].edits@.len()
                    ==> file_from(
                    files@,
                    (#[trigger] lints@[p].fixes@[j].edits@[k]).file,
                    0,
                ) is Some,
        decreases n - i,
    {
        if is_in_workspace(files, lints[i].file) {
            let fixes = &lints[i].fixes;
            let m: usize = fixes.len();
            let mut j: usize = 0;
            while j < m
                invariant
                    j <= m,
                    i < n,
                    n == lints@.len(),
                    in_workspace_from(files@, lints@[i as int].file, 0),
                    fixes@ == lints@[i as int].fixes@,
                    m == fixes@.len(),
                    forall|q: int, k: int|
                        0 <= q < j && 0 <= k < fixes@[q].edits@.len() ==> file_from(
                            files@,
                            (#[trigger] fixes@[q].edits@[k]).file,
                            0,
                        ) is Some,
                decreases m - j,
            {
                let edits = &fixes[j].edits;
                let l: usize = edits.len();
                let mut k: usize = 0;
                while k < l
                    invariant
                        k <= l,
                        i < n,
                        n == lints@.len(),
                        j < m,
                        m == fixes@.len(),
                        in_workspace_from(files@, lints@[i as int].file, 0),
                        fixes@ == lints@[i as int].fixes@,
                        edits@ == fixes@[j as int].edits@,
                        l == edits@.len(),
                        forall|q: int|
                            0 <= q < k ==> file_from(files@, (#[trigger] edits@[q]).file, 0) is Some,
                    decreases l - k,
                {
                    if find_file(files, edits[k].file).is_none() {
                        assert(file_from(
                            files@,
                            lints@[i as int].fixes@[j as int].edits@[k as int].file,
                            0,
                        ) is None);
                        return false;
                    }
                    k += 1;
                }
                j += 1;
            }
        }
        i += 1;
    }
    true
}

fn make_annotations(files: &Vec<FileFacts>, file: u32, list: &Vec<LintAnnotation>) -> (r: Vec<
    DiagnosticAnnotation,
>)
    ensures
        views(r@) == list@.map_values(
            |annotation: LintAnnotation| annotation_of(files@, file, annotation),
        ),
{
    let ghost goal = list@.map_values(
        |annotation: LintAnnotation| annotation_of(files@, file, annotation),
    );
    let n: usize = list.len();
    let mut out: Vec<DiagnosticAnnotation> = Vec::new();
    let mut i: usize = 0;
    while i < n
        invariant
            i <= n,
            n == list@.len(),
            goal == list@.map_values(
                |annotation: LintAnnotation| annotation_of(files@, file, annotation),
            ),
            out@.len() == i,
            forall|j: int| 0 <= j < i ==> (#[trigger] out@[j])@ == goal[j],
        decreases n - i,
    {
        let annotation = &list[i];
        let made = DiagnosticAnnotation {
            location: find_place(files, file, annotation.span),
            message: copy_text(&annotation.message),
            primary: annotation.primary,
            tags: make_tags(&annotation.tags),
        };
        assert(made@ =~= goal[i as int]);
        out.push(made);
        i += 1;
    }
    assert(views(out@) =~= goal);
    out
}

fn make_tags(tags: &Vec<LintTag>) -> (r: Vec<String>)
    ensures
        views(r@) == tags@.map_values(|tag: LintTag| tag_text(tag)),
{
    let ghost goal = tags@.map_values(|tag: LintTag| tag_text(tag));
    let n: usize = tags.len();
    let mut out: Vec<String> = Vec::new();
    let mut i: usize = 0;
    while i < n
        invariant
            i <= n,
            n == tags@.len(),
            goal == tags@.map_values(|tag: LintTag| tag_text(tag)),
            out@.len() == i,
            forall|j: int| 0 <= j < i ==> (#[trigger] out@[j])@ == goal[j],
        decreases n - i,
    {
        let text = match tags[i] {
            LintTag::Unnecessary => "unnecessary",
            LintTag::Deprecated => "deprecated",
        };
        out.push(text.to_owned());
        i += 1;
    }
    assert(views(out@) =~= goal);
    out
}

fn make_edits(files: &Vec<FileFacts>, edits: &Vec<LintEdit>) -> (r: Vec<DiagnosticEdit>)
    ensures
        views(r@) == edits@.map_values(|edit: LintEdit| edit_of(files@, edit)),
{
    let ghost goal = edits@.map_values(|edit: LintEdit| edit_of(files@, edit));
    let n: usize = edits.len();
    let mut out: Vec<DiagnosticEdit> = Vec::new();
    let mut i: usize = 0;
    while i < n
        invariant
            i <= n,
            n == edits@.len(),
            goal == edits@.map_values(|edit: LintEdit| edit_of(files@, edit)),
            out@.len() == i,
            forall|j: int| 0 <= j < i ==> (#[trigger] out@[j])@ == goal[j],
        decreases n - i,
    {
        let edit = &edits[i];
        out.push(
            DiagnosticEdit {
                location: find_place(files, edit.file, edit.span),
                replacement: edit.replacement.clone(),
            },
        );
        i += 1;
    }
    assert(views(out@) =~= goal);
    out
}

fn make_fixes(files: &Vec<FileFacts>, fixes: &Vec<LintFix>) -> (r: Vec<DiagnosticFix>)
    ensures
        views(r@) == fixes@.map_values(|fix: LintFix| fix_of(files@, fix)),
{
    let ghost goal = fixes@.map_values(|fix: LintFix| fix_of(files@, fix));
    let n: usize = fixes.len();
    let mut out: Vec<DiagnosticFix> = Vec::new();
    let mut i: usize = 0;
    while i < n
        invariant
            i <= n,
            n == fixes@.len(),
            goal == fixes@.map_values(|fix: LintFix| fix_of(files@, fix)),
            out@.len() == i,
            forall|j: int| 0 <= j < i ==> (#[trigger] out@[j])@ == goal[j],
        decreases n - i,
    {
        let fix = &fixes[i];
        let applicability = if fix.automatic {
            "automatic"
        } else {
            "manual"
        };
        let made = DiagnosticFix {
            message: fix.message.clone(),
            applicability: applicability.to_owned(),
            edits: make_edits(files, &fix.edits),
        };
        assert(made@ =~= goal[i as int]);
        out.push(made);
        i += 1;
    }
    assert(views(out@) =~= goal);
    out
}

fn find_lint_place(files: &Vec<FileFacts>, lint: &LintFact) -> (r: Option<SourceLocation>)
    ensures
        opt_view(r) == lint_place(files@, *lint),
{
    let n: usize = lint.annotations.len();
    let mut i: usize = 0;
    while i < n
        invariant
            i <= n,
            n == lint.annotations@.len(),
            primary_from(lint.annotations@, 0) == primary_from(lint.annotations@, i as int),
        decreases n - i,
    {
        if lint.annotations[i].primary {
            return Some(find_place(files, lint.file, lint.annotations[i].span));
        }
        i += 1;
    }
    if n > 0 {
        Some(find_place(files, lint.file, lint.annotations[0].span))
    } else {
        None
    }
}

/// The diagnostics of the findings of the linter in the workspace.
pub fn collect_lint_diagnostics(files: &Vec<FileFacts>, lints: &Vec<LintFact>) -> (r: Vec<
    Diagnostic,
>)
    ensures
        views(r@) == lint_diagnostics_from(files@, lints@, 0, Seq::empty()),
{
    let mut out: Vec<Diagnostic> = Vec::new();
    let n: usize = lints.len();
    let mut i: usize = 0;
    while i < n
        invariant
            i <= n,
            n == lints@.len(),
            lint_diagnostics_from(files@, lints@, 0, Seq::empty()) == lint_diagnostics_from(
                files@,
                lints@,
                i as int,
                views(out@),
            ),
        decreases n - i,
    {
        let lint = &lints[i];
        if is_in_workspace(files, lint.file) {
            let severity = match lint.severity {
                LintSeverity::Fatal | LintSeverity::Error => "error",
                LintSeverity::Warning => "warning",
                LintSeverity::Info => "information",
                LintSeverity::Help => "hint",
            };
            let made = Diagnostic {
                phase: "lint".to_owned(),
                source: "tolk-linter".to_owned(),
                severity: severity.to_owned(),
                code: copy_text(&lint.code),
                message: lint.message.clone(),
                location: find_lint_place(files, lint),
                help: copy_text(&lint.help),
                annotations: make_annotations(files, lint.file, &lint.annotations),
                fixes: make_fixes(files, &lint.fixes),
            };
            assert(made@ =~= lint_diagnostic(files@, *lint));
            out.push(made);
        }
        i += 1;
    }
    out
}

/// The diagnostics of errors of the whole project from position `i` on.
pub open spec fn project_diagnostics_from(
    errors: Seq<Seq<char>>,
    i: int,
    acc: Seq<DiagnosticView>,
) -> Seq<DiagnosticView>
    decreases errors.len() - i,
{
    if 0 <= i < errors.len() {
        project_diagnostics_from(
            errors,
            i + 1,
            acc.push(
                plain_diagnostic(
                    "project"@,
                    "tolk-resolver"@,
                    "error"@,
                    "project-index"@,
                    errors[i],
                    None,
                ),
            ),
        )
    } else {
        acc
    }
}

/// The diagnostics of errors of the whole project.
pub fn collect_project_diagnostics(errors: &Vec<String>) -> (r: Vec<Diagnostic>)
    ensures
        views(r@) == project_diagnostics_from(views(errors@), 0, Seq::empty()),
{
    let mut out: Vec<Diagnostic> = Vec::new();
    let n: usize = errors.len();
    let mut i: usize = 0;
    while i < n
        invariant
            i <= n,
            n == errors@.len(),
            project_diagnostics_from(views(errors@), 0, Seq::empty())
                == project_diagnostics_from(views(errors@), i as int, views(out@)),
        decreases n - i,
    {
        out.push(
            make_diagnostic(
                "project",
                "tolk-resolver",
                "error",
                "project-index",
                errors[i].clone(),
                None,
            ),
        );
        i += 1;
    }
    out
}

} // verus!
