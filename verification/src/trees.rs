//! Laws of the nodes that a snapshot lists, and of the lambdas among them.
use crate::facts::{FileFacts, ProjectFacts, TypeFact};
use crate::ids::SpanKey;
use crate::inspect::{built, forest_from, lambdas_of, names_of, project_forest, ForestView};
use crate::known::{known_apart, lemma_file_in_order};
use crate::lambdas::{body_place, file_of_path, lambda_ids_from, lambdas_from, LambdaView};
use crate::listed::lemma_in_sum;
use crate::model::AstNodeView;
use crate::nodes::{
    ascii_camel, ascii_upper, ast_node, camel, child_ids_from, children_nodes, fields_from, node_id,
    tree_nodes, tree_places, with_item,
};
use crate::position::position_of;
use crate::promises::files_in_order;
use crate::syntax::{lemma_child, text_of, SyntaxNode};
use crate::text::{decimal, opt_view};
use crate::written::{lemma_pushed, spot};
use vstd::prelude::*;

verus! {

/// A node that is shown: it is named in the grammar, or something is wrong with it.
pub open spec fn is_shown(node: SyntaxNode) -> bool {
    node.named || node.error || node.missing
}

/// The node at the end of a path of children that are shown.
pub open spec fn shown_at(top: SyntaxNode, path: Seq<int>) -> Option<SyntaxNode>
    decreases path.len(),
{
    if path.len() == 0 {
        Some(top)
    } else if 0 <= path[0] < top.children@.len() && is_shown(top.children@[path[0]]) {
        shown_at(top.children@[path[0]], path.drop_first())
    } else {
        None
    }
}

/// The id of a node: the path of its file, its range, its kind and its position among the
/// children of its parent.
pub open spec fn id_of_node(path: Seq<char>, node: SyntaxNode, sibling: int) -> Seq<char> {
    "n:"@ + path + ":"@ + decimal(node.start as nat) + ":"@ + decimal(node.end as nat) + ":"@
        + node.kind@ + ":"@ + decimal(sibling as nat)
}

/// A listed node is the node of a tree.
pub open spec fn describes_node(
    x: AstNodeView,
    path: Seq<char>,
    source: Seq<char>,
    node: SyntaxNode,
    sibling: int,
) -> bool {
    &&& x.id == id_of_node(path, node, sibling)
    &&& x.raw_kind == node.kind@
    &&& x.kind == camel(node.kind@)
    &&& x.named == node.named
    &&& x.error == (node.error || node.missing)
    &&& x.location.path == path
    &&& x.location.byte_range.start == node.start
    &&& x.location.byte_range.end == node.end
    &&& x.location.range.start == position_of(source, node.start as int)
    &&& x.location.range.end == position_of(source, node.end as int)
    &&& match text_of(source, node) {
        Some(text) => x.text == text,
        None => x.text.len() == 0,
    }
    &&& children_are_listed(x, path, node)
    &&& fields_are_listed(x, path, node)
}

/// A listed node leads to the nodes of all children that are shown, and to no other.
pub open spec fn children_are_listed(x: AstNodeView, path: Seq<char>, node: SyntaxNode) -> bool {
    forall|id: Seq<char>| #[trigger]
        x.child_ids.contains(id) <==> exists|k: int| #[trigger] child_holds(path, node, id, k)
}

/// A listed node leads in each field to the nodes of the children in that field, and to no other.
pub open spec fn fields_are_listed(x: AstNodeView, path: Seq<char>, node: SyntaxNode) -> bool {
    forall|field: Seq<char>, id: Seq<char>| #[trigger]
        leads_in_field(x, field, id) <==> exists|k: int| #[trigger]
            field_holds(path, node, field, id, k)
}

/// A listed node leads in a field to another.
pub open spec fn leads_in_field(x: AstNodeView, field: Seq<char>, id: Seq<char>) -> bool {
    x.fields.contains_key(field) && x.fields[field].contains(id)
}

/// An id is that of a child that is shown.
pub open spec fn child_holds(path: Seq<char>, node: SyntaxNode, id: Seq<char>, k: int) -> bool {
    &&& 0 <= k < node.children@.len()
    &&& is_shown(node.children@[k])
    &&& id == id_of_node(path, node.children@[k], k)
}

/// An id is that of a child in a field that is shown.
pub open spec fn field_holds(
    path: Seq<char>,
    node: SyntaxNode,
    field: Seq<char>,
    id: Seq<char>,
    k: int,
) -> bool {
    &&& child_holds(path, node, id, k)
    &&& node.children@[k].field matches Some(text) && text@ == field
}

proof fn lemma_child_ids(
    path: Seq<char>,
    node: SyntaxNode,
    i: int,
    acc: Seq<Seq<char>>,
    id: Seq<char>,
)
    requires
        0 <= i,
    ensures
        child_ids_from(path, node, i, acc).contains(id) <==> acc.contains(id) || exists|k: int|
            i <= k && #[trigger] child_holds(path, node, id, k),
    decreases node.children@.len() - i,
{
    if i < node.children@.len() {
        let child = node.children@[i];
        let own = id_of_node(path, child, i);
        lemma_pushed(acc, own);
        let next = if is_shown(child) {
            acc.push(own)
        } else {
            acc
        };
        lemma_child_ids(path, node, i + 1, next, id);
        assert(next.contains(id) <==> acc.contains(id) || child_holds(path, node, id, i));
        if exists|k: int| i <= k && #[trigger] child_holds(path, node, id, k) {
            let k = choose|k: int| i <= k && #[trigger] child_holds(path, node, id, k);
            if k > i {
                assert(i + 1 <= k && child_holds(path, node, id, k));
            }
        }
    }
}

proof fn lemma_fields(
    path: Seq<char>,
    node: SyntaxNode,
    i: int,
    acc: Map<Seq<char>, Seq<Seq<char>>>,
    field: Seq<char>,
    id: Seq<char>,
)
    requires
        0 <= i,
    ensures
        ({
            let after = fields_from(path, node, i, acc);
            after.contains_key(field) && after[field].contains(id) <==> acc.contains_key(field)
                && acc[field].contains(id) || exists|k: int|
                i <= k && #[trigger] field_holds(path, node, field, id, k)
        }),
    decreases node.children@.len() - i,
{
    if i < node.children@.len() {
        let child = node.children@[i];
        let own = id_of_node(path, child, i);
        let next = match opt_view(child.field) {
            Some(name) => if is_shown(child) {
                with_item(acc, name, own)
            } else {
                acc
            },
            None => acc,
        };
        lemma_fields(path, node, i + 1, next, field, id);
        if acc.contains_key(field) {
            lemma_pushed(acc[field], own);
        }
        lemma_pushed(Seq::<Seq<char>>::empty(), own);
        assert(next.contains_key(field) && next[field].contains(id) <==> acc.contains_key(field)
            && acc[field].contains(id) || field_holds(path, node, field, id, i));
        if exists|k: int| i <= k && #[trigger] field_holds(path, node, field, id, k) {
            let k = choose|k: int| i <= k && #[trigger] field_holds(path, node, field, id, k);
            if k > i {
                assert(i + 1 <= k && field_holds(path, node, field, id, k));
            }
        }
    }
}

proof fn lemma_describes(
    path: Seq<char>,
    source: Seq<char>,
    node: SyntaxNode,
    parent: Option<Seq<char>>,
    sibling: nat,
)
    ensures
        describes_node(
            ast_node(path, source, node, parent, sibling),
            path,
            source,
            node,
            sibling as int,
        ),
        ast_node(path, source, node, parent, sibling).parent_id == parent,
{
    let x = ast_node(path, source, node, parent, sibling);
    reveal_strlit("");
    assert(""@.len() == 0);
    assert(children_are_listed(x, path, node)) by {
        assert forall|id: Seq<char>| #[trigger] x.child_ids.contains(id) <==> exists|k: int|
            #[trigger]
            child_holds(path, node, id, k) by {
            lemma_child_ids(path, node, 0, Seq::empty(), id);
        }
    }
    assert(fields_are_listed(x, path, node)) by {
        assert forall|field: Seq<char>, id: Seq<char>| #[trigger]
            leads_in_field(x, field, id) <==> exists|k: int| #[trigger]
                field_holds(path, node, field, id, k) by {
            lemma_fields(path, node, 0, Map::empty(), field, id);
        }
    }
}

proof fn lemma_children_nodes(
    path: Seq<char>,
    source: Seq<char>,
    node: SyntaxNode,
    id: Seq<char>,
    i: int,
    acc: Seq<AstNodeView>,
    x: AstNodeView,
    k: int,
)
    requires
        0 <= i,
    ensures
        acc.contains(x) ==> children_nodes(path, source, node, id, i, acc).contains(x),
        i <= k < node.children@.len() && is_shown(node.children@[k]) && tree_nodes(
            path,
            source,
            node.children@[k],
            Some(id),
            k as nat,
        ).contains(x) ==> children_nodes(path, source, node, id, i, acc).contains(x),
    decreases node.children@.len() - i,
{
    if i < node.children@.len() {
        lemma_child(node, i);
        let child = node.children@[i];
        let more = tree_nodes(path, source, child, Some(id), i as nat);
        lemma_in_sum(acc, more, x);
        lemma_children_nodes(
            path,
            source,
            node,
            id,
            i + 1,
            if is_shown(child) {
                acc + more
            } else {
                acc
            },
            x,
            k,
        );
    }
}

/// A list holds a node with its parent.
pub open spec fn lists_node(
    list: Seq<AstNodeView>,
    path: Seq<char>,
    source: Seq<char>,
    node: SyntaxNode,
    parent: Option<Seq<char>>,
    sibling: int,
) -> bool {
    exists|x: AstNodeView| #[trigger]
        list.contains(x) && describes_node(x, path, source, node, sibling) && x.parent_id
            == parent
}

/// Every node of a tree that is shown is listed as what it is, with its parent.
pub proof fn trees_are_listed(
    path: Seq<char>,
    source: Seq<char>,
    top: SyntaxNode,
    parent: Option<Seq<char>>,
    sibling: nat,
    at: Seq<int>,
    node: SyntaxNode,
)
    requires
        shown_at(top, at) == Some(node),
    ensures
        lists_node(
            tree_nodes(path, source, top, parent, sibling),
            path,
            source,
            node,
            parent_at(path, top, parent, sibling as int, at),
            if at.len() == 0 {
                sibling as int
            } else {
                at.last()
            },
        ),
    decreases at.len(),
{
    let id = node_id(path, top, sibling);
    let inner = children_nodes(path, source, top, id, 0, Seq::empty());
    let own = ast_node(path, source, top, parent, sibling);
    lemma_pushed(inner, own);
    if at.len() == 0 {
        lemma_describes(path, source, top, parent, sibling);
    } else {
        let child = top.children@[at[0]];
        let rest = at.drop_first();
        trees_are_listed(path, source, child, Some(id), at[0] as nat, rest, node);
        let list = tree_nodes(path, source, child, Some(id), at[0] as nat);
        let goal = parent_at(path, child, Some(id), at[0], rest);
        let place = if rest.len() == 0 {
            at[0]
        } else {
            rest.last()
        };
        let x = choose|x: AstNodeView| #[trigger]
            list.contains(x) && describes_node(x, path, source, node, place) && x.parent_id
                == goal;
        lemma_children_nodes(path, source, top, id, 0, Seq::empty(), x, at[0]);
        assert(tree_nodes(path, source, top, parent, sibling).contains(x));
        lemma_parent_step(path, top, parent, sibling as int, at);
        assert(place == at.last());
    }
}

/// The id of what holds the node at the end of a path.
pub open spec fn parent_at(
    path: Seq<char>,
    top: SyntaxNode,
    parent: Option<Seq<char>>,
    sibling: int,
    at: Seq<int>,
) -> Option<Seq<char>> {
    if at.len() == 0 {
        parent
    } else {
        match shown_at(top, at.drop_last()) {
            Some(holder) => Some(
                id_of_node(
                    path,
                    holder,
                    if at.len() == 1 {
                        sibling
                    } else {
                        at[at.len() - 2]
                    },
                ),
            ),
            None => None,
        }
    }
}

proof fn lemma_parent_step(
    path: Seq<char>,
    top: SyntaxNode,
    parent: Option<Seq<char>>,
    sibling: int,
    at: Seq<int>,
)
    requires
        at.len() > 0,
        shown_at(top, at) is Some,
    ensures
        parent_at(path, top, parent, sibling, at) == parent_at(
            path,
            top.children@[at[0]],
            Some(id_of_node(path, top, sibling)),
            at[0],
            at.drop_first(),
        ),
{
    if at.len() == 1 {
        assert(at.drop_last() =~= Seq::empty());
    } else {
        assert(at.drop_last().drop_first() =~= at.drop_first().drop_last());
        assert(at.drop_last()[0] == at[0]);
    }
}

proof fn lemma_forest(
    files: Seq<FileFacts>,
    i: int,
    acc: ForestView,
    at: int,
    x: AstNodeView,
)
    requires
        0 <= i,
    ensures
        acc.nodes.contains(x) ==> forest_from(files, i, acc).nodes.contains(x),
        i <= at < files.len() && tree_nodes(
            files[at].text.path@,
            files[at].text.source@,
            files[at].text.root,
            None,
            0,
        ).contains(x) ==> forest_from(files, i, acc).nodes.contains(x),
    decreases files.len() - i,
{
    if i < files.len() {
        let text = files[i].text;
        let more = tree_nodes(text.path@, text.source@, text.root, None, 0);
        lemma_in_sum(acc.nodes, more, x);
        lemma_forest(
            files,
            i + 1,
            ForestView {
                nodes: acc.nodes + more,
                places: tree_places(files[i].id, text.path@, text.root, 0, acc.places),
            },
            at,
            x,
        );
    }
}

proof fn lemma_forest_lists(files: Seq<FileFacts>, at: int, path: Seq<int>, node: SyntaxNode)
    requires
        0 <= at < files.len(),
        shown_at(files[at].text.root, path) == Some(node),
    ensures
        lists_node(
            project_forest(files).nodes,
            files[at].text.path@,
            files[at].text.source@,
            node,
            parent_at(files[at].text.path@, files[at].text.root, None, 0, path),
            if path.len() == 0 {
                0
            } else {
                path.last()
            },
        ),
{
    let text = files[at].text;
    trees_are_listed(text.path@, text.source@, text.root, None, 0, path, node);
    let list = tree_nodes(text.path@, text.source@, text.root, None, 0);
    let parent = parent_at(text.path@, text.root, None, 0, path);
    let place = if path.len() == 0 {
        0
    } else {
        path.last()
    };
    let x = choose|x: AstNodeView| #[trigger]
        list.contains(x) && describes_node(x, text.path@, text.source@, node, place)
            && x.parent_id == parent;
    let start = ForestView { nodes: Seq::empty(), places: Map::empty() };
    lemma_forest(files, 0, start, at, x);
}

/// Every node of a file of a project that is shown is listed in a snapshot as what it is.
pub proof fn shown_nodes_are_listed(facts: ProjectFacts, i: int, path: Seq<int>, node: SyntaxNode)
    requires
        0 <= i < facts.files@.len(),
        shown_at(facts.files@[i].text.root, path) == Some(node),
    ensures
        built(facts) matches Ok(snapshot) ==> lists_node(
            snapshot.nodes,
            facts.files@[i].text.path@,
            facts.files@[i].text.source@,
            node,
            parent_at(facts.files@[i].text.path@, facts.files@[i].text.root, None, 0, path),
            if path.len() == 0 {
                0
            } else {
                path.last()
            },
        ),
{
    let at = lemma_file_in_order(facts, i);
    lemma_forest_lists(files_in_order(facts), at, path, node);
}

proof fn lemma_file_of_path(files: Seq<FileFacts>, at: int, i: int)
    requires
        known_apart(files),
        0 <= i <= at < files.len(),
    ensures
        file_of_path(files, files[at].text.path@, i) == Some(files[at].id),
    decreases at - i,
{
    if files[i].text.path@ == files[at].text.path@ {
        assert(files[i] == files[at]);
    } else {
        lemma_file_of_path(files, at, i + 1);
    }
}

proof fn lemma_lambdas_keep(
    files: Seq<FileFacts>,
    nodes: Seq<AstNodeView>,
    i: int,
    acc: Seq<LambdaView>,
    l: LambdaView,
    k: int,
)
    requires
        0 <= i,
    ensures
        acc.contains(l) ==> lambdas_from(files, nodes, i, acc).contains(l),
        i <= k < nodes.len() && nodes[k].raw_kind == "lambda_expression"@ && (file_of_path(
            files,
            nodes[k].location.path,
            0,
        ) matches Some(file) && l == (LambdaView {
            file,
            path: nodes[k].location.path,
            start: nodes[k].location.byte_range.start,
            end: nodes[k].location.byte_range.end,
            node_id: nodes[k].id,
            body: body_place(nodes, nodes[k]),
        })) ==> lambdas_from(files, nodes, i, acc).contains(l),
    decreases nodes.len() - i,
{
    if i < nodes.len() {
        let node = nodes[i];
        let next = if node.raw_kind == "lambda_expression"@ {
            match file_of_path(files, node.location.path, 0) {
                Some(file) => {
                    let own = LambdaView {
                        file,
                        path: node.location.path,
                        start: node.location.byte_range.start,
                        end: node.location.byte_range.end,
                        node_id: node.id,
                        body: body_place(nodes, node),
                    };
                    lemma_pushed(acc, own);
                    acc.push(own)
                },
                None => acc,
            }
        } else {
            acc
        };
        lemma_lambdas_keep(files, nodes, i + 1, next, l, k);
    }
}

/// The ids of lambdas, as far as they are those of lambdas of files that are known apart.
proof fn lemma_lambda_ids(
    lambdas: Seq<LambdaView>,
    i: int,
    acc: Map<SpanKey, Seq<char>>,
    key: SpanKey,
    path: Seq<char>,
)
    requires
        0 <= i,
        forall|j: int|
            0 <= j < lambdas.len() && (#[trigger] lambdas[j]).file == key.file ==> lambdas[j].path
                == path,
        acc.contains_key(key) ==> acc[key] == "lambda:"@ + path + ":"@ + decimal(key.start as nat)
            + ":"@ + decimal(key.end as nat),
    ensures
        lambda_ids_from(lambdas, i, acc).contains_key(key) <==> acc.contains_key(key) || exists|
            j: int,
        |
            i <= j < lambdas.len() && (#[trigger] lambdas[j]).file == key.file && lambdas[j].start
                == key.start && lambdas[j].end == key.end,
        lambda_ids_from(lambdas, i, acc).contains_key(key) ==> lambda_ids_from(
            lambdas,
            i,
            acc,
        )[key] == "lambda:"@ + path + ":"@ + decimal(key.start as nat) + ":"@ + decimal(
            key.end as nat,
        ),
    decreases lambdas.len() - i,
{
    if i < lambdas.len() {
        let l = lambdas[i];
        let own = "lambda:"@ + l.path + ":"@ + decimal(l.start as nat) + ":"@ + decimal(
            l.end as nat,
        );
        let next = acc.insert(SpanKey { file: l.file, start: l.start, end: l.end }, own);
        lemma_lambda_ids(lambdas, i + 1, next, key, path);
        if exists|j: int|
            i <= j < lambdas.len() && (#[trigger] lambdas[j]).file == key.file && lambdas[j].start
                == key.start && lambdas[j].end == key.end {
            let j = choose|j: int|
                i <= j < lambdas.len() && (#[trigger] lambdas[j]).file == key.file
                    && lambdas[j].start == key.start && lambdas[j].end == key.end;
            if j > i {
                assert(i + 1 <= j < lambdas.len() && lambdas[j].file == key.file);
            }
        }
    }
}

proof fn lemma_lambda_paths(
    files: Seq<FileFacts>,
    nodes: Seq<AstNodeView>,
    i: int,
    acc: Seq<LambdaView>,
)
    requires
        0 <= i,
        forall|j: int|
            0 <= j < acc.len() ==> file_of_path(files, (#[trigger] acc[j]).path, 0) == Some(
                acc[j].file,
            ),
    ensures
        forall|j: int|
            0 <= j < lambdas_from(files, nodes, i, acc).len() ==> file_of_path(
                files,
                (#[trigger] lambdas_from(files, nodes, i, acc)[j]).path,
                0,
            ) == Some(lambdas_from(files, nodes, i, acc)[j].file),
    decreases nodes.len() - i,
{
    if i < nodes.len() {
        let node = nodes[i];
        let next = if node.raw_kind == "lambda_expression"@ {
            match file_of_path(files, node.location.path, 0) {
                Some(file) => acc.push(
                    LambdaView {
                        file,
                        path: node.location.path,
                        start: node.location.byte_range.start,
                        end: node.location.byte_range.end,
                        node_id: node.id,
                        body: body_place(nodes, node),
                    },
                ),
                None => acc,
            }
        } else {
            acc
        };
        lemma_lambda_paths(files, nodes, i + 1, next);
    }
}

proof fn lemma_path_of_file(files: Seq<FileFacts>, path: Seq<char>, i: int)
    requires
        0 <= i,
    ensures
        file_of_path(files, path, i) matches Some(file) ==> exists|k: int|
            0 <= k < files.len() && (#[trigger] files[k]).text.path@ == path && files[k].id
                == file,
    decreases files.len() - i,
{
    if i < files.len() {
        if files[i].text.path@ != path {
            lemma_path_of_file(files, path, i + 1);
        }
    }
}

/// Every lambda of a file has an id: the path of its file and its range.
pub proof fn lambdas_have_ids(
    files: Seq<FileFacts>,
    types: Seq<TypeFact>,
    at: int,
    path: Seq<int>,
    node: SyntaxNode,
)
    requires
        known_apart(files),
        0 <= at < files.len(),
        shown_at(files[at].text.root, path) == Some(node),
        node.kind@ == "lambda_expression"@,
    ensures
        names_of(files, types).lambda_ids.contains_key(spot(files[at].id, node)),
        names_of(files, types).lambda_ids[spot(files[at].id, node)] == "lambda:"@
            + files[at].text.path@ + ":"@ + decimal(node.start as nat) + ":"@ + decimal(
            node.end as nat,
        ),
{
    let text = files[at].text;
    let nodes = project_forest(files).nodes;
    let lambdas = lambdas_of(files);
    let key = spot(files[at].id, node);
    lemma_forest_lists(files, at, path, node);
    let place = if path.len() == 0 {
        0
    } else {
        path.last()
    };
    let x = choose|x: AstNodeView| #[trigger]
        nodes.contains(x) && describes_node(x, text.path@, text.source@, node, place);
    let k = choose|k: int| 0 <= k < nodes.len() && nodes[k] == x;
    lemma_file_of_path(files, at, 0);
    let l = LambdaView {
        file: files[at].id,
        path: text.path@,
        start: node.start,
        end: node.end,
        node_id: x.id,
        body: body_place(nodes, x),
    };
    lemma_lambdas_keep(files, nodes, 0, Seq::empty(), l, k);
    assert(lambdas.contains(l));
    let m = choose|m: int| 0 <= m < lambdas.len() && lambdas[m] == l;
    assert(lambdas[m].file == key.file);
    lemma_lambda_paths(files, nodes, 0, Seq::empty());
    assert forall|j: int|
        0 <= j < lambdas.len() && (#[trigger] lambdas[j]).file == key.file implies lambdas[j].path
        == text.path@ by {
        lemma_path_of_file(files, lambdas[j].path, 0);
        let n = choose|n: int|
            0 <= n < files.len() && (#[trigger] files[n]).text.path@ == lambdas[j].path
                && files[n].id == key.file;
        assert(files[n] == files[at]);
    }
    lemma_lambda_ids(lambdas, 0, Map::empty(), key, text.path@);
}

/// A part of a name that stands behind an underscore starts in upper case, and goes on as it is.
pub proof fn parts_start_in_upper_case(c: char, rest: Seq<char>)
    requires
        c != '_',
        !rest.contains('_'),
    ensures
        'a' <= c <= 'z' ==> ascii_camel(seq!['_', c] + rest) == seq![
            ((c as u32 - 32) as u32) as char,
        ] + rest,
        !('a' <= c <= 'z') ==> ascii_camel(seq!['_', c] + rest) == seq![c] + rest,
    decreases rest.len(),
{
    let whole = seq!['_', c] + rest;
    if rest.len() == 0 {
        assert(whole =~= seq!['_', c]);
        assert(whole.drop_last() =~= seq!['_']);
        assert(seq!['_'].drop_last() =~= Seq::empty());
        assert(ascii_camel(Seq::empty()) == Seq::<char>::empty());
        assert(ascii_camel(seq!['_']) == Seq::<char>::empty());
        assert(ascii_camel(whole) =~= seq![ascii_upper(c)] + rest);
    } else {
        let front = rest.drop_last();
        assert forall|i: int| 0 <= i < front.len() implies front[i] != '_' by {
            assert(rest[i] == front[i]);
        }
        parts_start_in_upper_case(c, front);
        assert(whole.drop_last() =~= seq!['_', c] + front);
        assert(rest[rest.len() - 1] != '_');
        assert(whole[whole.len() - 2] != '_') by {
            if rest.len() > 1 {
                assert(rest[rest.len() - 2] != '_');
            }
        }
        assert((seq![ascii_upper(c)] + front).push(rest.last()) =~= seq![
            ascii_upper(c),
        ] + rest);
    }
}

} // verus!
