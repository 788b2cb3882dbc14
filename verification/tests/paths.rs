use tolk_inspect::model::ControlFlowScope;
use tolk_inspect::path::{is_all_blank, normalize_logical_path, normalize_path, PathError};
use tolk_inspect::project::{prepare, InspectError, ProjectInput, ProjectPlan};
use tolk_inspect::tables::Table;

fn table(entries: &[(&str, &str)]) -> Table<String, String> {
    let mut out: Table<String, String> = Table::new();
    for (key, value) in entries {
        out.insert(key.to_string(), value.to_string());
    }
    out
}

fn input(files: &[(&str, &str)], entrypoints: &[&str]) -> ProjectInput {
    ProjectInput {
        root: "/project".into(),
        files: table(files),
        entrypoints: entrypoints.iter().map(|path| path.to_string()).collect(),
        stdlib_root: None,
        acton_stdlib_root: None,
        import_mappings: Table::new(),
        control_flow: ControlFlowScope::Workspace,
    }
}

fn roots(plan: &ProjectPlan) -> Vec<String> {
    plan.roots.iter().map(|path| path.text()).collect()
}

fn normal(path: &str) -> String {
    normalize_path(path).unwrap().text()
}

#[test]
fn paths_lose_dots_and_doubled_slashes() {
    assert_eq!(normal("/a//b/./c"), "/a/b/c");
    assert_eq!(normal("a/b"), "/a/b");
    assert_eq!(normal("/a/b/../c"), "/a/c");
    assert_eq!(normal("/"), "/");
    assert_eq!(normal("/a/.."), "/");
    // A backslash is a character like any other.
    assert_eq!(normal("a\\b/../c"), "/c");
}

#[test]
fn normalizing_twice_is_normalizing_once() {
    for path in ["/a//b/./c", "x/../y", "/", "a\\b"] {
        assert_eq!(normal(&normal(path)), normal(path));
    }
}

#[test]
fn paths_above_the_root_are_refused() {
    assert!(matches!(
        normalize_path("/a/../../b"),
        Err(PathError::Escapes { path }) if path == "/a/../../b"
    ));
    assert!(matches!(normalize_path(".."), Err(PathError::Escapes { .. })));
}

#[test]
fn blank_paths_are_refused() {
    assert!(matches!(normalize_logical_path("/project", ""), Err(PathError::Empty)));
    assert!(matches!(normalize_logical_path("/project", " \t\u{2003}"), Err(PathError::Empty)));
    assert!(is_all_blank(" \u{a0}\n"));
    assert!(!is_all_blank(" x "));
}

#[test]
fn relative_paths_start_at_the_root() {
    let at = |value: &str| normalize_logical_path("/project", value).unwrap().text();
    assert_eq!(at("main.tolk"), "/project/main.tolk");
    assert_eq!(at("/other/main.tolk"), "/other/main.tolk");
    assert_eq!(at("../x"), "/x");
}

#[test]
fn extensions_and_directories_are_read_off_the_parts() {
    let path = normalize_path("/a/b/main.tolk").unwrap();
    assert!(path.has_extension("tolk"));
    assert!(!path.has_extension("olk"));
    assert!(!normalize_path("/a/.tolk").unwrap().has_extension("tolk"));
    assert!(path.starts_with(&normalize_path("/a/b").unwrap()));
    assert!(path.starts_with(&normalize_path("/").unwrap()));
    assert!(!path.starts_with(&normalize_path("/a/bb").unwrap()));
}

#[test]
fn a_project_keeps_its_files_under_normal_paths() {
    let plan = prepare(&input(&[("main.tolk", "1"), ("/lib/./x.tolk", "2")], &["./main.tolk"]));
    let plan = plan.unwrap();
    assert_eq!(plan.root.text(), "/project");
    assert_eq!(roots(&plan), vec!["/project/main.tolk".to_string()]);
    let main = plan.files.get(&normalize_path("/project/main.tolk").unwrap());
    assert_eq!(main.map(|text| text.as_str()), Some("1"));
    let lib = plan.files.get(&normalize_path("/lib/x.tolk").unwrap());
    assert_eq!(lib.map(|text| text.as_str()), Some("2"));
}

#[test]
fn entrypoints_are_listed_once_and_in_order() {
    let files = [("/project/b.tolk", ""), ("/project/a.tolk", "")];
    let plan = prepare(&input(&files, &["b.tolk", "/project/a.tolk", "./b.tolk"])).unwrap();
    assert_eq!(roots(&plan), vec!["/project/a.tolk".to_string(), "/project/b.tolk".to_string()]);
}

#[test]
fn without_entrypoints_every_source_outside_the_libraries_is_one() {
    let mut given = input(
        &[
            ("main.tolk", ""),
            ("notes.txt", ""),
            ("std/common.tolk", ""),
            ("acton/test.tolk", ""),
        ],
        &[],
    );
    given.stdlib_root = Some("std".into());
    given.acton_stdlib_root = Some("acton".into());
    let plan = prepare(&given).unwrap();
    assert_eq!(roots(&plan), vec!["/project/main.tolk".to_string()]);
    assert_eq!(plan.library_directory(), "/project/std");
}

#[test]
fn a_project_without_a_library_looks_where_there_is_none() {
    let plan = prepare(&input(&[("main.tolk", "")], &[])).unwrap();
    assert_eq!(plan.library_directory(), "/project/.__tolk_inspect_no_stdlib__");
}

#[test]
fn import_mappings_lead_to_normal_paths() {
    let mut given = input(&[("main.tolk", "")], &[]);
    given.import_mappings = table(&[("pkg", "vendor/./pkg"), ("lib", "/lib")]);
    let plan = prepare(&given).unwrap();
    assert_eq!(
        plan.mappings.get(&"pkg".to_string()).map(|path| path.as_str()),
        Some("/project/vendor/pkg")
    );
    assert_eq!(
        plan.mappings.get(&"lib".to_string()).map(|path| path.as_str()),
        Some("/lib")
    );
}

#[test]
fn what_is_wrong_with_a_project_is_said() {
    let error = prepare(&input(&[], &[])).unwrap_err();
    assert!(matches!(error, InspectError::NoFiles));
    assert_eq!(error.message(), "files must contain at least one Tolk source");

    let error = prepare(&input(&[("notes.txt", "")], &[])).unwrap_err();
    assert!(matches!(error, InspectError::NoEntrypoints));
    assert_eq!(error.message(), "entrypoints must contain at least one Tolk source");

    let error = prepare(&input(&[("main.tolk", "")], &["other.tolk"])).unwrap_err();
    assert!(matches!(&error, InspectError::MissingEntrypoint { path } if path == "/project/other.tolk"));
    assert_eq!(error.message(), "entrypoint is not present in files: /project/other.tolk");

    let error = prepare(&input(&[("main.tolk", ""), ("./main.tolk", "")], &[])).unwrap_err();
    assert!(matches!(&error, InspectError::Duplicate { path } if path == "/project/main.tolk"));
    assert_eq!(
        error.message(),
        "duplicate logical path after normalization: /project/main.tolk"
    );

    let error = prepare(&input(&[("../../x.tolk", "")], &[])).unwrap_err();
    assert!(matches!(&error, InspectError::Path(PathError::Escapes { .. })));

    let mut given = input(&[("main.tolk", "")], &[]);
    given.root = " ".into();
    let error = prepare(&given).unwrap_err();
    assert!(matches!(error, InspectError::Path(PathError::Empty)));
    assert_eq!(error.message(), "logical paths must not be empty");

    let mut given = input(&[("main.tolk", "")], &[]);
    given.stdlib_root = Some("/..".into());
    assert!(matches!(prepare(&given), Err(InspectError::Path(PathError::Escapes { .. }))));
}
