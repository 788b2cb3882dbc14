//! Laws of how a project is planned.
use crate::path::{
    has_extension, lies_in, normal_logical_path, path_text, LogicalPath, PathErrorView,
};
use crate::project::{
    error_text, files_from, is_default_root, lemma_files_finite, mappings_from, missing_from,
    optional_path, paths_from, planned, root_set, InspectErrorView, PlanView, ProjectInput,
};
use crate::tables::{ascending, lemma_ascending};
use crate::text::{opt_view, views};
use vstd::prelude::*;

verus! {

/// A text leads from a directory to a path.
pub open spec fn leads(directory: Seq<Seq<char>>, text: Seq<char>, path: Seq<Seq<char>>) -> bool {
    normal_logical_path(path_text(directory), text) == Ok::<Seq<Seq<char>>, PathErrorView>(path)
}

/// A file newly stands in a table, under the path that its key leads to.
pub open spec fn is_placed(
    root: Seq<Seq<char>>,
    key: Seq<char>,
    text: Seq<char>,
    acc: Map<Seq<Seq<char>>, Seq<char>>,
    after: Map<Seq<Seq<char>>, Seq<char>>,
) -> bool {
    exists|p: Seq<Seq<char>>| #[trigger]
        leads(root, key, p) && after.contains_key(p) && !acc.contains_key(p) && after[p] == text
}

proof fn lemma_files(
    files: Map<Seq<char>, Seq<char>>,
    keys: Seq<Seq<char>>,
    root: Seq<Seq<char>>,
    i: int,
    acc: Map<Seq<Seq<char>>, Seq<char>>,
)
    requires
        0 <= i <= keys.len(),
    ensures
        match files_from(files, keys, path_text(root), i, acc) {
            Ok(after) => {
                &&& forall|p: Seq<Seq<char>>| #[trigger]
                    acc.contains_key(p) ==> after.contains_key(p) && after[p] == acc[p]
                &&& forall|k: int|
                    i <= k < keys.len() ==> is_placed(
                        root,
                        #[trigger] keys[k],
                        files[keys[k]],
                        acc,
                        after,
                    )
                &&& forall|p: Seq<Seq<char>>| #[trigger]
                    after.contains_key(p) ==> acc.contains_key(p) || exists|k: int|
                        i <= k < keys.len() && leads(root, #[trigger] keys[k], p)
            },
            Err(InspectErrorView::Duplicate { path }) => exists|p: Seq<Seq<char>>, k: int|
                i <= k < keys.len() && #[trigger] leads(root, #[trigger] keys[k], p) && path
                    == path_text(p) && (acc.contains_key(p) || exists|j: int|
                    i <= j < k && leads(root, #[trigger] keys[j], p)),
            Err(InspectErrorView::Path(error)) => exists|k: int|
                i <= k < keys.len() && normal_logical_path(
                    path_text(root),
                    #[trigger] keys[k],
                ) == Err::<Seq<Seq<char>>, PathErrorView>(error),
            Err(_) => false,
        },
    decreases keys.len() - i,
{
    if i < keys.len() {
        match normal_logical_path(path_text(root), keys[i]) {
            Ok(path) => {
                assert(leads(root, keys[i], path));
                if !acc.contains_key(path) {
                    let next = acc.insert(path, files[keys[i]]);
                    lemma_files(files, keys, root, i + 1, next);
                    match files_from(files, keys, path_text(root), i, acc) {
                        Ok(after) => {
                            assert(next.contains_key(path));
                            assert forall|p: Seq<Seq<char>>| #[trigger]
                                acc.contains_key(p) implies after.contains_key(p) && after[p]
                                == acc[p] by {
                                assert(next.contains_key(p));
                            }
                            assert forall|k: int| i <= k < keys.len() implies is_placed(
                                root,
                                #[trigger] keys[k],
                                files[keys[k]],
                                acc,
                                after,
                            ) by {
                                if k > i {
                                    assert(is_placed(root, keys[k], files[keys[k]], next, after));
                                    let p = choose|p: Seq<Seq<char>>| #[trigger]
                                        leads(root, keys[k], p) && after.contains_key(p)
                                            && !next.contains_key(p) && after[p]
                                            == files[keys[k]];
                                    assert(leads(root, keys[k], p));
                                } else {
                                    assert(leads(root, keys[k], path));
                                }
                            }
                            assert forall|p: Seq<Seq<char>>| #[trigger]
                                after.contains_key(p) implies acc.contains_key(p) || exists|
                                k: int,
                            | i <= k < keys.len() && leads(root, #[trigger] keys[k], p) by {
                                if next.contains_key(p) {
                                    if !acc.contains_key(p) {
                                        assert(i <= i < keys.len() && leads(root, keys[i], p));
                                    }
                                } else {
                                    let k = choose|k: int|
                                        i + 1 <= k < keys.len() && leads(root, #[trigger] keys[k], p);
                                    assert(i <= k < keys.len() && leads(root, keys[k], p));
                                }
                            }
                        },
                        Err(InspectErrorView::Duplicate { path: text }) => {
                            let (p, k) = choose|p: Seq<Seq<char>>, k: int|
                                i + 1 <= k < keys.len() && #[trigger] leads(
                                    root,
                                    #[trigger] keys[k],
                                    p,
                                ) && text == path_text(p) && (next.contains_key(p) || exists|
                                    j: int,
                                | i + 1 <= j < k && leads(root, #[trigger] keys[j], p));
                            assert(leads(root, keys[k], p));
                            if !acc.contains_key(p) {
                                if next.contains_key(p) {
                                    assert(i <= i < k && leads(root, keys[i], p));
                                } else {
                                    let j = choose|j: int|
                                        i + 1 <= j < k && leads(root, #[trigger] keys[j], p);
                                    assert(i <= j < k && leads(root, keys[j], p));
                                }
                            }
                        },
                        Err(_) => {},
                    }
                }
            },
            Err(_) => {},
        }
    }
}

proof fn lemma_paths(
    values: Seq<Seq<char>>,
    root: Seq<Seq<char>>,
    i: int,
    acc: Seq<Seq<Seq<char>>>,
    p: Seq<Seq<char>>,
)
    requires
        0 <= i <= values.len(),
    ensures
        paths_from(values, path_text(root), i, acc) matches Ok(after) ==> {
            &&& after.len() == acc.len() + values.len() - i
            &&& after.contains(p) <==> acc.contains(p) || exists|k: int|
                i <= k < values.len() && leads(root, #[trigger] values[k], p)
        },
    decreases values.len() - i,
{
    if i < values.len() {
        match normal_logical_path(path_text(root), values[i]) {
            Ok(path) => {
                let next = acc.push(path);
                lemma_paths(values, root, i + 1, next, p);
                assert(leads(root, values[i], path));
                assert(next.contains(p) <==> acc.contains(p) || p == path) by {
                    if acc.contains(p) {
                        let j = choose|j: int| 0 <= j < acc.len() && acc[j] == p;
                        assert(next[j] == p);
                    }
                    assert(next[acc.len() as int] == path);
                }
            },
            Err(_) => {},
        }
    }
}

proof fn lemma_mappings(
    mappings: Map<Seq<char>, Seq<char>>,
    keys: Seq<Seq<char>>,
    root: Seq<Seq<char>>,
    i: int,
    acc: Map<Seq<char>, Seq<char>>,
    name: Seq<char>,
)
    requires
        0 <= i <= keys.len(),
        keys.no_duplicates(),
    ensures
        mappings_from(mappings, keys, path_text(root), i, acc) matches Ok(after) ==> {
            &&& after.contains_key(name) <==> acc.contains_key(name) || exists|k: int|
                i <= k < keys.len() && #[trigger] keys[k] == name
            &&& if exists|k: int| i <= k < keys.len() && #[trigger] keys[k] == name {
                exists|p: Seq<Seq<char>>| #[trigger]
                    leads(root, mappings[name], p) && after[name] == path_text(p)
            } else {
                after[name] == acc[name]
            }
        },
    decreases keys.len() - i,
{
    if i < keys.len() {
        match normal_logical_path(path_text(root), mappings[keys[i]]) {
            Ok(path) => {
                let next = acc.insert(keys[i], path_text(path));
                lemma_mappings(mappings, keys, root, i + 1, next, name);
                assert(leads(root, mappings[keys[i]], path));
                if exists|k: int| i <= k < keys.len() && #[trigger] keys[k] == name {
                    let k = choose|k: int| i <= k < keys.len() && #[trigger] keys[k] == name;
                    if k > i {
                        assert(i + 1 <= k < keys.len() && keys[k] == name);
                    }
                }
            },
            Err(_) => {},
        }
    }
}

/// A plan holds each file of the project under the path that it leads to, and no other file.
pub open spec fn keeps_files(input: ProjectInput, plan: PlanView) -> bool {
    &&& forall|key: Seq<char>| #[trigger]
        input.files@.contains_key(key) ==> exists|p: Seq<Seq<char>>| #[trigger]
            leads(plan.root, key, p) && plan.files.contains_key(p) && plan.files[p]
                == input.files@[key]
    &&& forall|p: Seq<Seq<char>>| #[trigger]
        plan.files.contains_key(p) ==> exists|key: Seq<char>| #[trigger]
            leads(plan.root, key, p) && input.files@.contains_key(key)
}

/// A file may be a default start: a Tolk file outside the libraries.
pub open spec fn starts_by_default(plan: PlanView, p: Seq<Seq<char>>) -> bool {
    &&& plan.files.contains_key(p)
    &&& has_extension(p, "tolk"@)
    &&& plan.stdlib_root matches Some(at) ==> !lies_in(p, at)
    &&& plan.acton_root matches Some(at) ==> !lies_in(p, at)
}

/// The analysis starts at the entrypoints, and where there is none at the Tolk files outside the
/// libraries.
pub open spec fn starts_as_asked(input: ProjectInput, plan: PlanView, p: Seq<Seq<char>>) -> bool {
    if input.entrypoints@.len() > 0 {
        plan.roots.contains(p) <==> exists|k: int|
            0 <= k < input.entrypoints@.len() && leads(
                plan.root,
                (#[trigger] input.entrypoints@[k])@,
                p,
            )
    } else {
        plan.roots.contains(p) <==> starts_by_default(plan, p)
    }
}

/// Each import name leads where its mapping leads.
pub open spec fn maps_as_asked(input: ProjectInput, plan: PlanView, name: Seq<char>) -> bool {
    &&& plan.mappings.contains_key(name) <==> input.import_mappings@.contains_key(name)
    &&& input.import_mappings@.contains_key(name) ==> exists|p: Seq<Seq<char>>| #[trigger]
        leads(plan.root, input.import_mappings@[name], p) && plan.mappings[name] == path_text(p)
}

proof fn lemma_starts(input: ProjectInput, plan: PlanView, p: Seq<Seq<char>>)
    requires
        planned(input) == Ok::<PlanView, InspectErrorView>(plan),
        plan.files.dom().finite(),
    ensures
        starts_as_asked(input, plan, p),
{
    let values = views(input.entrypoints@);
    let entrypoints = paths_from(values, path_text(plan.root), 0, Seq::empty())->Ok_0;
    lemma_paths(values, plan.root, 0, Seq::empty(), p);
    let all = root_set(plan.files, entrypoints, plan.stdlib_root, plan.acton_root);
    assert(all.finite()) by {
        if entrypoints.len() == 0 {
            plan.files.dom().lemma_len_filter(
                |path: Seq<Seq<char>>| is_default_root(path, plan.stdlib_root, plan.acton_root),
            );
        }
    }
    lemma_ascending::<LogicalPath>(all);
    assert(plan.roots.to_set() == all);
    assert(plan.roots.contains(p) <==> plan.roots.to_set().contains(p));
    assert(plan.roots.contains(p) <==> all.contains(p));
    if input.entrypoints@.len() > 0 {
        assert(all.contains(p) <==> entrypoints.contains(p));
        assert(forall|k: int| 0 <= k < values.len() ==> #[trigger] values[k] == input.entrypoints@[k]@);
        if exists|k: int| 0 <= k < values.len() && leads(plan.root, #[trigger] values[k], p) {
            let k = choose|k: int| 0 <= k < values.len() && leads(plan.root, #[trigger] values[k], p);
            assert(leads(plan.root, input.entrypoints@[k]@, p));
        }
        if exists|k: int| 0 <= k < input.entrypoints@.len() && leads(plan.root, (#[trigger] input.entrypoints@[k])@, p) {
            let k = choose|k: int| 0 <= k < input.entrypoints@.len() && leads(plan.root, (#[trigger] input.entrypoints@[k])@, p);
            assert(leads(plan.root, values[k], p));
        }
    }
}

/// What is planned is what was asked for: the root, the libraries, the files, the starts, the
/// mappings and the scope of the control flow.
pub proof fn plans_are_as_asked(input: ProjectInput, p: Seq<Seq<char>>, name: Seq<char>)
    requires
        input.files@.dom().finite(),
        input.import_mappings@.dom().finite(),
    ensures
        planned(input) matches Ok(plan) ==> {
            &&& normal_logical_path("/"@, input.root@) == Ok::<Seq<Seq<char>>, PathErrorView>(
                plan.root,
            )
            &&& input.stdlib_root is None <==> plan.stdlib_root is None
            &&& input.stdlib_root matches Some(text) ==> leads(
                plan.root,
                text@,
                plan.stdlib_root->Some_0,
            )
            &&& input.acton_stdlib_root is None <==> plan.acton_root is None
            &&& input.acton_stdlib_root matches Some(text) ==> leads(
                plan.root,
                text@,
                plan.acton_root->Some_0,
            )
            &&& keeps_files(input, plan)
            &&& starts_as_asked(input, plan, p)
            &&& maps_as_asked(input, plan, name)
            &&& plan.control_flow == input.control_flow
        },
{
    match planned(input) {
        Ok(plan) => {
            let keys = ascending::<String>(input.files@.dom());
            lemma_ascending::<String>(input.files@.dom());
            lemma_files(input.files@, keys, plan.root, 0, Map::empty());
            assert forall|key: Seq<char>| #[trigger] input.files@.contains_key(key) implies exists|
                q: Seq<Seq<char>>,
            | #[trigger]
                leads(plan.root, key, q) && plan.files.contains_key(q) && plan.files[q]
                    == input.files@[key] by {
                assert(keys.to_set().contains(key));
                let k = choose|k: int| 0 <= k < keys.len() && keys[k] == key;
                assert(is_placed(
                    plan.root,
                    keys[k],
                    input.files@[keys[k]],
                    Map::empty(),
                    plan.files,
                ));
                let q = choose|q: Seq<Seq<char>>| #[trigger]
                    leads(plan.root, keys[k], q) && plan.files.contains_key(q) && plan.files[q]
                        == input.files@[keys[k]];
                assert(leads(plan.root, key, q));
            }
            assert forall|q: Seq<Seq<char>>| #[trigger] plan.files.contains_key(q) implies exists|
                key: Seq<char>,
            | #[trigger] leads(plan.root, key, q) && input.files@.contains_key(key) by {
                let k = choose|k: int|
                    0 <= k < keys.len() && leads(plan.root, #[trigger] keys[k], q);
                assert(keys.to_set().contains(keys[k]));
                assert(leads(plan.root, keys[k], q));
            }
            lemma_files_finite(input.files@, keys, path_text(plan.root), 0, Map::empty());
            lemma_starts(input, plan, p);
            let words = ascending::<String>(input.import_mappings@.dom());
            lemma_ascending::<String>(input.import_mappings@.dom());
            lemma_mappings(input.import_mappings@, words, plan.root, 0, Map::empty(), name);
            assert(input.import_mappings@.contains_key(name) <==> words.to_set().contains(name));
            if words.to_set().contains(name) {
                let k = choose|k: int| 0 <= k < words.len() && words[k] == name;
                assert(0 <= k < words.len() && words[k] == name);
            }
        },
        Err(_) => {},
    }
}

/// Two files of the project lead to one path.
pub open spec fn collides(input: ProjectInput, root: Seq<Seq<char>>, text: Seq<char>) -> bool {
    exists|p: Seq<Seq<char>>, a: Seq<char>, b: Seq<char>|
        #![trigger leads(root, a, p), leads(root, b, p)]
        a != b && input.files@.contains_key(a) && input.files@.contains_key(b) && leads(root, a, p)
            && leads(root, b, p) && text == path_text(p)
}

proof fn lemma_missing(roots: Seq<Seq<Seq<char>>>, files: Map<Seq<Seq<char>>, Seq<char>>, i: int)
    requires
        0 <= i,
    ensures
        missing_from(roots, files, i) matches Some(p) ==> roots.contains(p) && !files.contains_key(
            p,
        ),
    decreases roots.len() - i,
{
    if i < roots.len() && files.contains_key(roots[i]) {
        lemma_missing(roots, files, i + 1);
    }
}

proof fn lemma_refused_starts(input: ProjectInput, root: Seq<Seq<char>>)
    requires
        normal_logical_path("/"@, input.root@) == Ok::<Seq<Seq<char>>, PathErrorView>(root),
    ensures
        planned(input) matches Err(InspectErrorView::NoEntrypoints) ==> input.entrypoints@.len()
            == 0,
        planned(input) matches Err(InspectErrorView::MissingEntrypoint { path }) ==> exists|
            k: int,
            p: Seq<Seq<char>>,
        |
            0 <= k < input.entrypoints@.len() && #[trigger] leads(
                root,
                #[trigger] input.entrypoints@[k]@,
                p,
            ) && path == path_text(p),
{
    let at = path_text(root);
    let values = views(input.entrypoints@);
    let keys = ascending::<String>(input.files@.dom());
    lemma_files(input.files@, keys, root, 0, Map::empty());
    lemma_files_finite(input.files@, keys, at, 0, Map::empty());
    let stdlib = optional_path(at, opt_view(input.stdlib_root))->Ok_0;
    let acton = optional_path(at, opt_view(input.acton_stdlib_root))->Ok_0;
    let files = files_from(input.files@, keys, at, 0, Map::empty())->Ok_0;
    let entrypoints = paths_from(values, at, 0, Seq::empty())->Ok_0;
    let all = root_set(files, entrypoints, stdlib, acton);
    let roots = ascending::<LogicalPath>(all);
    match planned(input) {
        Err(InspectErrorView::NoEntrypoints) => {
            if entrypoints.len() > 0 {
                lemma_ascending::<LogicalPath>(all);
                assert(all.contains(entrypoints[0]));
                assert(roots.to_set().contains(entrypoints[0]));
                let k = choose|k: int| 0 <= k < roots.len() && roots[k] == entrypoints[0];
            }
            lemma_paths(values, root, 0, Seq::empty(), Seq::empty());
        },
        Err(InspectErrorView::MissingEntrypoint { path }) => {
            let p = missing_from(roots, files, 0)->Some_0;
            lemma_missing(roots, files, 0);
            lemma_paths(values, root, 0, Seq::empty(), p);
            assert(all.finite()) by {
                if entrypoints.len() == 0 {
                    files.dom().lemma_len_filter(
                        |path: Seq<Seq<char>>| is_default_root(path, stdlib, acton),
                    );
                }
            }
            lemma_ascending::<LogicalPath>(all);
            assert(roots.to_set().contains(p));
            assert(entrypoints.contains(p));
            let k = choose|k: int| 0 <= k < values.len() && leads(root, #[trigger] values[k], p);
            assert(values[k] == input.entrypoints@[k]@);
            assert(leads(root, input.entrypoints@[k]@, p));
        },
        _ => {},
    }
}

/// A project is refused for two files only where two lead to one path, for having no files only
/// where none is given, and for an entrypoint only where it leads to no file.
pub proof fn refusals_are_right(input: ProjectInput, root: Seq<Seq<char>>)
    requires
        input.files@.dom().finite(),
        normal_logical_path("/"@, input.root@) == Ok::<Seq<Seq<char>>, PathErrorView>(root),
    ensures
        match planned(input) {
            Err(InspectErrorView::Duplicate { path }) => collides(input, root, path),
            Err(InspectErrorView::NoFiles) => forall|key: Seq<char>|
                !#[trigger] input.files@.contains_key(key),
            Err(InspectErrorView::NoEntrypoints) => input.entrypoints@.len() == 0,
            Err(InspectErrorView::MissingEntrypoint { path }) => exists|k: int, p: Seq<Seq<char>>|
                0 <= k < input.entrypoints@.len() && #[trigger] leads(
                    root,
                    #[trigger] input.entrypoints@[k]@,
                    p,
                ) && path == path_text(p),
            _ => true,
        },
{
    let keys = ascending::<String>(input.files@.dom());
    lemma_ascending::<String>(input.files@.dom());
    lemma_files(input.files@, keys, root, 0, Map::empty());
    match planned(input) {
        Err(InspectErrorView::Duplicate { path }) => {
            let (p, k) = choose|p: Seq<Seq<char>>, k: int|
                0 <= k < keys.len() && #[trigger] leads(root, #[trigger] keys[k], p) && path
                    == path_text(p) && exists|j: int|
                    0 <= j < k && leads(root, #[trigger] keys[j], p);
            let j = choose|j: int| 0 <= j < k && leads(root, #[trigger] keys[j], p);
            assert(keys.to_set().contains(keys[j]) && keys.to_set().contains(keys[k]));
            assert(leads(root, keys[j], p) && leads(root, keys[k], p));
        },
        Err(InspectErrorView::NoFiles) => {
            assert forall|key: Seq<char>| !#[trigger] input.files@.contains_key(key) by {
                if input.files@.contains_key(key) {
                    assert(keys.to_set().contains(key));
                    let k = choose|k: int| 0 <= k < keys.len() && keys[k] == key;
                    let none = Map::<Seq<Seq<char>>, Seq<char>>::empty();
                    assert(is_placed(root, keys[k], input.files@[keys[k]], none, none));
                }
            }
        },
        Err(InspectErrorView::NoEntrypoints) | Err(InspectErrorView::MissingEntrypoint { .. }) => {
            lemma_refused_starts(input, root);
        },
        _ => {},
    }
}

/// Each refusal says what is wrong, and names the path that it is about.
pub proof fn refusals_say_what_is_wrong(path: Seq<char>)
    ensures
        error_text(InspectErrorView::Path(PathErrorView::Empty))
            == "logical paths must not be empty"@,
        error_text(InspectErrorView::Path(PathErrorView::Escapes { path }))
            == "logical path escapes its root: "@ + path,
        error_text(InspectErrorView::Duplicate { path })
            == "duplicate logical path after normalization: "@ + path,
        error_text(InspectErrorView::NoFiles) == "files must contain at least one Tolk source"@,
        error_text(InspectErrorView::NoEntrypoints)
            == "entrypoints must contain at least one Tolk source"@,
        error_text(InspectErrorView::MissingEntrypoint { path })
            == "entrypoint is not present in files: "@ + path,
{
}

} // verus!
