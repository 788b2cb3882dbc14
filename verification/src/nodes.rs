//! The nodes of syntax trees, as a snapshot lists them.
use crate::ids::SpanKey;
use crate::model::{copy_texts, lists_under, AstNode, AstNodeView};
use crate::position::{location, location_of};
use crate::syntax::{lemma_child, text_of, SyntaxNode};
use crate::tables::{KeyMap, Table};
use crate::text::{chars_of, decimal, opt_view, push_decimal, views};
use vstd::prelude::*;
use vstd::string::*;

verus! {

broadcast use crate::text::group_views;

/// The uppercase mapping of a character.
pub uninterp spec fn uppercase(c: char) -> Seq<char>;

/// `char::to_uppercase`, its characters collected into a string: the uppercase mapping that
/// Unicode gives the character, which depends on nothing but the character. Of the mapping only
/// the ASCII range is stated: a letter `a` to `z` maps to `A` to `Z`, and every other ASCII
/// character to itself.
#[verifier::external_body]
fn to_upper(c: char) -> (r: String)
    ensures
        r@ == uppercase(c),
        'a' <= c <= 'z' ==> r@ == seq![((c as u32 - 32) as u32) as char],
        (c as u32) < 128 && !('a' <= c <= 'z') ==> r@ == seq![c],
{
    c.to_uppercase().to_string()
}

/// A text without its underscores.
pub open spec fn bare(text: Seq<char>) -> Seq<char>
    decreases text.len(),
{
    if text.len() == 0 {
        Seq::empty()
    } else if text.last() == '_' {
        bare(text.drop_last())
    } else {
        bare(text.drop_last()).push(text.last())
    }
}

/// A text without its underscores.
fn without_underscores(text: &str) -> (r: String)
    ensures
        r@ == bare(text@),
{
    let chars = chars_of(text);
    let ghost all = text@;
    let n: usize = chars.len();
    let mut out = String::new();
    let mut i: usize = 0;
    assert(out@ =~= Seq::empty());
    assert(all.take(0) =~= Seq::empty());
    while i < n
        invariant
            i <= n,
            n == chars@.len(),
            chars@ == all,
            out@ == bare(all.take(i as int)),
        decreases n - i,
    {
        let c = chars[i];
        proof {
            assert(all.take(i + 1).drop_last() =~= all.take(i as int));
            assert(all.take(i + 1).last() == c);
        }
        if c != '_' {
            out.push(c);
        }
        i += 1;
    }
    assert(all.take(n as int) =~= all);
    out
}

/// A name in camel case: underscores go, and the character behind each is in upper case. None
/// comes back with an uppercase mapping.
pub open spec fn camel(raw: Seq<char>) -> Seq<char>
    decreases raw.len(),
{
    if raw.len() == 0 {
        Seq::empty()
    } else {
        let before = camel(raw.drop_last());
        if raw.last() == '_' {
            before
        } else if raw.len() > 1 && raw[raw.len() - 2] == '_' {
            before + bare(uppercase(raw.last()))
        } else {
            before.push(raw.last())
        }
    }
}

/// A text of ASCII characters.
pub open spec fn is_ascii_text(text: Seq<char>) -> bool {
    forall|i: int| 0 <= i < text.len() ==> (#[trigger] text[i] as u32) < 128
}

/// An ASCII character in upper case.
pub open spec fn ascii_upper(c: char) -> char {
    if 'a' <= c <= 'z' {
        ((c as u32 - 32) as u32) as char
    } else {
        c
    }
}

/// An ASCII name in camel case: underscores go, and a letter behind each is in upper case.
pub open spec fn ascii_camel(raw: Seq<char>) -> Seq<char>
    decreases raw.len(),
{
    if raw.len() == 0 {
        Seq::empty()
    } else {
        let before = ascii_camel(raw.drop_last());
        if raw.last() == '_' {
            before
        } else if raw.len() > 1 && raw[raw.len() - 2] == '_' {
            before.push(ascii_upper(raw.last()))
        } else {
            before.push(raw.last())
        }
    }
}

/// A name without underscores is in camel case already.
pub proof fn plain_names_stay(raw: Seq<char>)
    requires
        !raw.contains('_'),
    ensures
        camel(raw) == raw,
        ascii_camel(raw) == raw,
    decreases raw.len(),
{
    if raw.len() > 0 {
        let rest = raw.drop_last();
        assert forall|i: int| 0 <= i < rest.len() implies rest[i] != '_' by {
            assert(raw[i] == rest[i]);
        }
        plain_names_stay(rest);
        assert(raw[raw.len() - 1] != '_');
        assert(raw.len() > 1 ==> raw[raw.len() - 2] != '_');
        assert(rest.push(raw.last()) =~= raw);
    }
}

/// Camel case goes part by part: what stands behind an underscore is put in camel case by itself.
pub proof fn camel_case_splits(a: Seq<char>, b: Seq<char>)
    ensures
        camel(a + seq!['_'] + b) == camel(a) + camel(seq!['_'] + b),
        ascii_camel(a + seq!['_'] + b) == ascii_camel(a) + ascii_camel(seq!['_'] + b),
    decreases b.len(),
{
    let whole = a + seq!['_'] + b;
    let tail = seq!['_'] + b;
    if b.len() == 0 {
        assert(whole.drop_last() =~= a);
        assert(tail.drop_last() =~= Seq::empty());
        assert(tail.last() == '_');
        assert(camel(tail.drop_last()) == Seq::<char>::empty());
        assert(ascii_camel(tail.drop_last()) == Seq::<char>::empty());
        assert(camel(tail) =~= Seq::empty());
        assert(ascii_camel(tail) =~= Seq::empty());
        assert(camel(a) + Seq::empty() =~= camel(a));
        assert(ascii_camel(a) + Seq::empty() =~= ascii_camel(a));
    } else {
        let rest = b.drop_last();
        camel_case_splits(a, rest);
        assert(whole.drop_last() =~= a + seq!['_'] + rest);
        assert(tail.drop_last() =~= seq!['_'] + rest);
        assert(whole[whole.len() - 2] == tail[tail.len() - 2]);
        assert(camel(whole) =~= camel(a) + camel(tail));
        assert(ascii_camel(whole) =~= ascii_camel(a) + ascii_camel(tail));
    }
}

/// An ASCII name in camel case is ASCII, holds no underscore, and is left alone when it is put in
/// camel case again.
pub proof fn ascii_camel_case_is_final(raw: Seq<char>)
    requires
        is_ascii_text(raw),
    ensures
        is_ascii_text(ascii_camel(raw)),
        !ascii_camel(raw).contains('_'),
        ascii_camel(ascii_camel(raw)) == ascii_camel(raw),
    decreases raw.len(),
{
    if raw.len() > 0 {
        assert(raw[raw.len() - 1] == raw.last());
        ascii_camel_case_is_final(raw.drop_last());
        assert(ascii_upper(raw.last()) == '_' ==> raw.last() == '_');
    }
    plain_names_stay(ascii_camel(raw));
}

/// A text without its underscores holds none, and one that held none is whole.
proof fn lemma_bare(text: Seq<char>)
    ensures
        !bare(text).contains('_'),
        !text.contains('_') ==> bare(text) == text,
    decreases text.len(),
{
    if text.len() > 0 {
        let rest = text.drop_last();
        lemma_bare(rest);
        assert(text.last() == text[text.len() - 1]);
        if !text.contains('_') {
            assert forall|i: int| 0 <= i < rest.len() implies rest[i] != '_' by {
                assert(text[i] == rest[i]);
            }
            assert(rest.push(text.last()) =~= text);
        }
    }
}

/// A name in camel case holds no underscore, and is left alone when it is put in camel case again.
pub proof fn camel_case_is_final(raw: Seq<char>)
    ensures
        !camel(raw).contains('_'),
        camel(camel(raw)) == camel(raw),
    decreases raw.len(),
{
    if raw.len() > 0 {
        let before = camel(raw.drop_last());
        let upper = bare(uppercase(raw.last()));
        camel_case_is_final(raw.drop_last());
        lemma_bare(uppercase(raw.last()));
        assert forall|k: int| 0 <= k < camel(raw).len() implies camel(raw)[k] != '_' by {
            if k < before.len() {
                assert(camel(raw)[k] == before[k]);
            } else if raw.len() > 1 && raw[raw.len() - 2] == '_' {
                assert(camel(raw)[k] == upper[k - before.len()]);
            }
        }
    }
    plain_names_stay(camel(raw));
}

/// An uppercase mapping that holds no underscore stands whole in a name in camel case.
pub proof fn uppercase_stays_whole(c: char)
    ensures
        !uppercase(c).contains('_') ==> bare(uppercase(c)) == uppercase(c),
{
    lemma_bare(uppercase(c));
}

/// A grammar name in camel case.
pub fn camel_kind(raw: &str) -> (r: String)
    ensures
        r@ == camel(raw@),
        !r@.contains('_'),
        camel(r@) == r@,
        !raw@.contains('_') ==> r@ == raw@,
        is_ascii_text(raw@) ==> r@ == ascii_camel(raw@) && is_ascii_text(r@),
{
    let chars = chars_of(raw);
    let ghost all = raw@;
    let n: usize = chars.len();
    let mut out = String::new();
    let mut i: usize = 0;
    assert(out@ =~= Seq::empty());
    assert(all.take(0) =~= Seq::empty());
    while i < n
        invariant
            i <= n,
            n == chars@.len(),
            chars@ == all,
            all == raw@,
            out@ == camel(all.take(i as int)),
            is_ascii_text(all) ==> out@ == ascii_camel(all.take(i as int)),
        decreases n - i,
    {
        let c = chars[i];
        proof {
            assert(all.take(i + 1).drop_last() =~= all.take(i as int));
            assert(all.take(i + 1).last() == c);
            if i > 0 {
                assert(all.take(i + 1)[i - 1] == all[i - 1]);
            }
            assert(is_ascii_text(all) ==> (all[i as int] as u32) < 128);
        }
        if c != '_' {
            if i > 0 && chars[i - 1] == '_' {
                let ghost before = out@;
                let upper = to_upper(c);
                out.append(without_underscores(upper.as_str()).as_str());
                proof {
                    lemma_bare(upper@);
                    assert(is_ascii_text(all) ==> upper@ =~= seq![ascii_upper(c)]);
                    assert(ascii_upper(c) != '_');
                }
                assert(is_ascii_text(all) ==> out@ =~= before.push(ascii_upper(c)));
            } else {
                out.push(c);
            }
        }
        i += 1;
    }
    assert(all.take(n as int) =~= all);
    proof {
        camel_case_is_final(all);
        if is_ascii_text(all) {
            ascii_camel_case_is_final(all);
        }
        if !all.contains('_') {
            plain_names_stay(all);
        }
    }
    out
}

/// The id of a node: its file, range, kind and position among the children of its parent.
pub open spec fn node_id(path: Seq<char>, node: SyntaxNode, sibling: nat) -> Seq<char> {
    "n:"@ + path + ":"@ + decimal(node.start as nat) + ":"@ + decimal(node.end as nat) + ":"@
        + node.kind@ + ":"@ + decimal(sibling)
}

/// The id of a node.
pub fn node_id_text(path: &str, node: &SyntaxNode, sibling: usize) -> (r: String)
    ensures
        r@ == node_id(path@, *node, sibling as nat),
{
    let mut out = "n:".to_owned();
    out.append(path);
    out.append(":");
    push_decimal(&mut out, node.start as u64);
    out.append(":");
    push_decimal(&mut out, node.end as u64);
    out.append(":");
    out.append(node.kind.as_str());
    out.append(":");
    push_decimal(&mut out, sibling as u64);
    out
}

/// A node that the snapshot lists.
pub open spec fn is_listed(node: SyntaxNode) -> bool {
    node.named || node.error || node.missing
}

/// The ids of the listed children from position `i` on.
pub open spec fn child_ids_from(
    path: Seq<char>,
    node: SyntaxNode,
    i: int,
    acc: Seq<Seq<char>>,
) -> Seq<Seq<char>>
    decreases node.children@.len() - i,
{
    if 0 <= i < node.children@.len() {
        let child = node.children@[i];
        child_ids_from(
            path,
            node,
            i + 1,
            if is_listed(child) {
                acc.push(node_id(path, child, i as nat))
            } else {
                acc
            },
        )
    } else {
        acc
    }
}

/// A list under a key, with one more item.
pub open spec fn with_item(
    table: Map<Seq<char>, Seq<Seq<char>>>,
    key: Seq<char>,
    item: Seq<char>,
) -> Map<Seq<char>, Seq<Seq<char>>> {
    table.insert(
        key,
        if table.contains_key(key) {
            table[key].push(item)
        } else {
            Seq::empty().push(item)
        },
    )
}

/// The ids of the listed children from position `i` on, by field.
pub open spec fn fields_from(
    path: Seq<char>,
    node: SyntaxNode,
    i: int,
    acc: Map<Seq<char>, Seq<Seq<char>>>,
) -> Map<Seq<char>, Seq<Seq<char>>>
    decreases node.children@.len() - i,
{
    if 0 <= i < node.children@.len() {
        let child = node.children@[i];
        fields_from(
            path,
            node,
            i + 1,
            match opt_view(child.field) {
                Some(field) => if is_listed(child) {
                    with_item(acc, field, node_id(path, child, i as nat))
                } else {
                    acc
                },
                None => acc,
            },
        )
    } else {
        acc
    }
}

/// A node as the snapshot lists it.
pub open spec fn ast_node(
    path: Seq<char>,
    source: Seq<char>,
    node: SyntaxNode,
    parent: Option<Seq<char>>,
    sibling: nat,
) -> AstNodeView {
    AstNodeView {
        id: node_id(path, node, sibling),
        kind: camel(node.kind@),
        raw_kind: node.kind@,
        named: node.named,
        error: node.error || node.missing,
        parent_id: parent,
        child_ids: child_ids_from(path, node, 0, Seq::empty()),
        fields: fields_from(path, node, 0, Map::empty()),
        location: location_of(path, source, node.start as int, node.end as int),
        text: match text_of(source, node) {
            Some(text) => text,
            None => ""@,
        },
    }
}

/// A tree as the snapshot lists it: each node behind the nodes below it.
pub open spec fn tree_nodes(
    path: Seq<char>,
    source: Seq<char>,
    node: SyntaxNode,
    parent: Option<Seq<char>>,
    sibling: nat,
) -> Seq<AstNodeView>
    decreases node, node.children@.len() + 1,
{
    children_nodes(path, source, node, node_id(path, node, sibling), 0, Seq::empty()).push(
        ast_node(path, source, node, parent, sibling),
    )
}

pub open spec fn children_nodes(
    path: Seq<char>,
    source: Seq<char>,
    node: SyntaxNode,
    id: Seq<char>,
    i: int,
    acc: Seq<AstNodeView>,
) -> Seq<AstNodeView>
    decreases node, node.children@.len() - i,
{
    if 0 <= i < node.children@.len() {
        proof {
            lemma_child(node, i);
        }
        let child = node.children@[i];
        children_nodes(
            path,
            source,
            node,
            id,
            i + 1,
            if is_listed(child) {
                acc + tree_nodes(path, source, child, Some(id), i as nat)
            } else {
                acc
            },
        )
    } else {
        acc
    }
}

/// The ids of the nodes of a tree by their place. Of nodes at the same place the innermost
/// counts, and of those the last.
pub open spec fn tree_places(
    file: u32,
    path: Seq<char>,
    node: SyntaxNode,
    sibling: nat,
    acc: Map<SpanKey, Seq<char>>,
) -> Map<SpanKey, Seq<char>>
    decreases node, node.children@.len() + 1,
{
    children_places(
        file,
        path,
        node,
        0,
        acc.insert(
            SpanKey { file, start: node.start, end: node.end },
            node_id(path, node, sibling),
        ),
    )
}

pub open spec fn children_places(
    file: u32,
    path: Seq<char>,
    node: SyntaxNode,
    i: int,
    acc: Map<SpanKey, Seq<char>>,
) -> Map<SpanKey, Seq<char>>
    decreases node, node.children@.len() - i,
{
    if 0 <= i < node.children@.len() {
        proof {
            lemma_child(node, i);
        }
        let child = node.children@[i];
        children_places(
            file,
            path,
            node,
            i + 1,
            if is_listed(child) {
                tree_places(file, path, child, i as nat, acc)
            } else {
                acc
            },
        )
    } else {
        acc
    }
}

/// A node is the child of another one in a list.
pub open spec fn has_parent(list: Seq<AstNodeView>, x: AstNodeView) -> bool {
    exists|y: AstNodeView|
        list.contains(y) && x.parent_id == Some(y.id) && #[trigger] y.child_ids.contains(x.id)
}

/// An id is that of a child of a node in a list.
pub open spec fn has_child(list: Seq<AstNodeView>, y: AstNodeView, id: Seq<char>) -> bool {
    exists|x: AstNodeView| #[trigger]
        list.contains(x) && x.id == id && x.parent_id == Some(y.id)
}

/// The position of the listed child in whose tree a node stands.
spec fn stands_in(
    path: Seq<char>,
    source: Seq<char>,
    node: SyntaxNode,
    id: Seq<char>,
    x: AstNodeView,
    k: int,
) -> bool {
    &&& 0 <= k < node.children@.len()
    &&& is_listed(node.children@[k])
    &&& tree_nodes(path, source, node.children@[k], Some(id), k as nat).contains(x)
}

proof fn lemma_concat<A>(a: Seq<A>, b: Seq<A>, x: A)
    ensures
        (a + b).contains(x) <==> a.contains(x) || b.contains(x),
{
    if a.contains(x) {
        let j = choose|j: int| 0 <= j < a.len() && a[j] == x;
        assert((a + b)[j] == x);
    }
    if b.contains(x) {
        let j = choose|j: int| 0 <= j < b.len() && b[j] == x;
        assert((a + b)[a.len() + j] == x);
    }
}

proof fn lemma_push<A>(a: Seq<A>, last: A, x: A)
    ensures
        a.push(last).contains(x) <==> a.contains(x) || x == last,
{
    if a.contains(x) {
        let j = choose|j: int| 0 <= j < a.len() && a[j] == x;
        assert(a.push(last)[j] == x);
    }
    assert(a.push(last)[a.len() as int] == last);
    if a.push(last).contains(x) && x != last {
        let j = choose|j: int| 0 <= j < a.push(last).len() && a.push(last)[j] == x;
        assert(a[j] == x);
    }
}

/// The nodes below a node are those in the trees of its listed children.
proof fn lemma_children(
    path: Seq<char>,
    source: Seq<char>,
    node: SyntaxNode,
    id: Seq<char>,
    i: int,
    acc: Seq<AstNodeView>,
    x: AstNodeView,
)
    requires
        0 <= i <= node.children@.len(),
    ensures
        children_nodes(path, source, node, id, i, acc).contains(x) <==> acc.contains(x) || exists|
            k: int,
        |
            k >= i && stands_in(path, source, node, id, x, k),
    decreases node.children@.len() - i,
{
    if i < node.children@.len() {
        let child = node.children@[i];
        let more = tree_nodes(path, source, child, Some(id), i as nat);
        let next = if is_listed(child) {
            acc + more
        } else {
            acc
        };
        lemma_children(path, source, node, id, i + 1, next, x);
        lemma_concat(acc, more, x);
        if is_listed(child) && more.contains(x) {
            assert(stands_in(path, source, node, id, x, i));
        }
        if exists|k: int| k >= i && stands_in(path, source, node, id, x, k) {
            let k = choose|k: int| k >= i && stands_in(path, source, node, id, x, k);
            if k > i {
                assert(k >= i + 1 && stands_in(path, source, node, id, x, k));
            }
        }
    }
}

/// The ids of the children of a node are those of its listed children.
proof fn lemma_child_ids(
    path: Seq<char>,
    node: SyntaxNode,
    i: int,
    acc: Seq<Seq<char>>,
    id: Seq<char>,
)
    requires
        0 <= i <= node.children@.len(),
    ensures
        child_ids_from(path, node, i, acc).contains(id) <==> acc.contains(id) || exists|k: int|
            i <= k < node.children@.len() && is_listed(#[trigger] node.children@[k]) && id
                == node_id(path, node.children@[k], k as nat),
    decreases node.children@.len() - i,
{
    if i < node.children@.len() {
        let child = node.children@[i];
        let here = node_id(path, child, i as nat);
        let next = if is_listed(child) {
            acc.push(here)
        } else {
            acc
        };
        lemma_child_ids(path, node, i + 1, next, id);
        lemma_push(acc, here, id);
    }
}

/// The nodes of a tree link to each other: every node but the root is listed as a child by the
/// node that it names as its parent, and every child that a node lists is there and names the
/// node as its parent.
pub proof fn tree_links_agree(
    path: Seq<char>,
    source: Seq<char>,
    node: SyntaxNode,
    parent: Option<Seq<char>>,
    sibling: nat,
)
    ensures
        ({
            let list = tree_nodes(path, source, node, parent, sibling);
            let root = ast_node(path, source, node, parent, sibling);
            &&& list.contains(root)
            &&& root.id == node_id(path, node, sibling)
            &&& forall|x: AstNodeView|
                list.contains(x) ==> x == root || #[trigger] has_parent(list, x)
            &&& forall|y: AstNodeView, id: Seq<char>|
                list.contains(y) && y.child_ids.contains(id) ==> #[trigger] has_child(list, y, id)
        }),
    decreases node,
{
    let list = tree_nodes(path, source, node, parent, sibling);
    let root = ast_node(path, source, node, parent, sibling);
    let id = node_id(path, node, sibling);
    let below = children_nodes(path, source, node, id, 0, Seq::empty());
    let none: Seq<AstNodeView> = Seq::empty();
    lemma_push(below, root, root);
    assert forall|x: AstNodeView| list.contains(x) implies x == root || #[trigger] has_parent(
        list,
        x,
    ) by {
        lemma_push(below, root, x);
        if x != root {
            lemma_children(path, source, node, id, 0, none, x);
            let k = choose|k: int| k >= 0 && stands_in(path, source, node, id, x, k);
            let child = node.children@[k];
            lemma_child(node, k);
            tree_links_agree(path, source, child, Some(id), k as nat);
            let inner = tree_nodes(path, source, child, Some(id), k as nat);
            let top = ast_node(path, source, child, Some(id), k as nat);
            if x == top {
                lemma_child_ids(path, node, 0, Seq::empty(), x.id);
                assert(is_listed(node.children@[k]) && x.id == node_id(path, node.children@[k], k as nat));
                assert(root.child_ids.contains(x.id));
            } else {
                assert(has_parent(inner, x));
                let y = choose|y: AstNodeView|
                    inner.contains(y) && x.parent_id == Some(y.id)
                        && #[trigger] y.child_ids.contains(x.id);
                assert(stands_in(path, source, node, id, y, k));
                lemma_children(path, source, node, id, 0, none, y);
                lemma_push(below, root, y);
                assert(list.contains(y));
            }
        }
    }
    assert forall|y: AstNodeView, c: Seq<char>|
        list.contains(y) && y.child_ids.contains(c) implies #[trigger] has_child(list, y, c) by {
        lemma_push(below, root, y);
        if y == root {
            lemma_child_ids(path, node, 0, Seq::empty(), c);
            let k = choose|k: int|
                0 <= k < node.children@.len() && is_listed(#[trigger] node.children@[k]) && c
                    == node_id(path, node.children@[k], k as nat);
            let child = node.children@[k];
            lemma_child(node, k);
            tree_links_agree(path, source, child, Some(id), k as nat);
            let top = ast_node(path, source, child, Some(id), k as nat);
            assert(stands_in(path, source, node, id, top, k));
            lemma_children(path, source, node, id, 0, none, top);
            lemma_push(below, root, top);
            assert(list.contains(top));
        } else {
            lemma_children(path, source, node, id, 0, none, y);
            let k = choose|k: int| k >= 0 && stands_in(path, source, node, id, y, k);
            let child = node.children@[k];
            lemma_child(node, k);
            tree_links_agree(path, source, child, Some(id), k as nat);
            let inner = tree_nodes(path, source, child, Some(id), k as nat);
            assert(has_child(inner, y, c));
            let x = choose|x: AstNodeView| #[trigger]
                inner.contains(x) && x.id == c && x.parent_id == Some(y.id);
            assert(stands_in(path, source, node, id, x, k));
            lemma_children(path, source, node, id, 0, none, x);
            lemma_push(below, root, x);
            assert(list.contains(x));
        }
    }
}

fn copy_ids(ids: &Vec<String>) -> (r: Vec<String>)
    ensures
        views(r@) == views(ids@),
{
    copy_texts(ids)
}

/// Adds an item to the list under a key.
fn add_item(table: &mut KeyMap<String, Vec<String>>, key: &String, item: String)
    ensures
        lists_under(final(table)@) == with_item(lists_under(old(table)@), key@, item@),
{
    let ghost before = lists_under(table@);
    let mut list = match table.get(key) {
        Some(list) => copy_ids(list),
        None => Vec::new(),
    };
    let ghost held = views(list@);
    list.push(item);
    assert(views(list@) =~= held.push(item@));
    table.insert(key.clone(), list);
    assert(lists_under(table@) =~= with_item(before, key@, item@));
}

/// Lists the nodes of a tree, and their ids by place.
pub fn collect_node(
    file: u32,
    path: &str,
    source: &str,
    node: &SyntaxNode,
    parent: Option<String>,
    sibling: usize,
    nodes: &mut Vec<AstNode>,
    places: &mut Table<SpanKey, String>,
)
    ensures
        views(final(nodes)@) == views(old(nodes)@) + tree_nodes(
            path@,
            source@,
            *node,
            opt_view(parent),
            sibling as nat,
        ),
        final(places)@ == tree_places(file, path@, *node, sibling as nat, old(places)@),
    decreases node,
{
    let id = node_id_text(path, node, sibling);
    let ghost start = views(nodes@);
    let ghost before = places@;
    places.insert(
        SpanKey { file, start: node.start, end: node.end },
        id.clone(),
    );
    let ghost entered = places@;
    let mut child_ids: Vec<String> = Vec::new();
    let mut fields: KeyMap<String, Vec<String>> = KeyMap::new();
    let n: usize = node.children.len();
    let mut i: usize = 0;
    let ghost mut inner: Seq<AstNodeView> = Seq::empty();
    assert(lists_under(fields@) =~= Map::empty());
    assert(start + inner =~= start);
    while i < n
        invariant
            i <= n,
            n == node.children@.len(),
            id@ == node_id(path@, *node, sibling as nat),
            child_ids_from(path@, *node, 0, Seq::empty()) == child_ids_from(
                path@,
                *node,
                i as int,
                views(child_ids@),
            ),
            fields_from(path@, *node, 0, Map::empty()) == fields_from(
                path@,
                *node,
                i as int,
                lists_under(fields@),
            ),
            views(nodes@) == start + inner,
            children_nodes(path@, source@, *node, id@, 0, Seq::empty()) == children_nodes(
                path@,
                source@,
                *node,
                id@,
                i as int,
                inner,
            ),
            children_places(file, path@, *node, 0, entered) == children_places(
                file,
                path@,
                *node,
                i as int,
                places@,
            ),
        decreases n - i,
    {
        proof {
            lemma_child(*node, i as int);
        }
        let child = &node.children[i];
        if child.named || child.error || child.missing {
            let child_id = node_id_text(path, child, i);
            match &child.field {
                Some(field) => {
                    add_item(&mut fields, field, child_id.clone());
                },
                None => {},
            }
            child_ids.push(child_id);
            let ghost more = tree_nodes(path@, source@, *child, Some(id@), i as nat);
            collect_node(file, path, source, child, Some(id.clone()), i, nodes, places);
            proof {
                assert(start + inner + more =~= start + (inner + more));
                inner = inner + more;
            }
        }
        i += 1;
    }
    let text = match node.text(source) {
        Some(text) => text,
        None => "".to_owned(),
    };
    let listed = AstNode {
        id,
        kind: camel_kind(node.kind.as_str()),
        raw_kind: node.kind.clone(),
        named: node.named,
        error: node.error || node.missing,
        parent_id: parent,
        child_ids,
        fields,
        location: location(path, source, node.start as usize, node.end as usize),
        text,
    };
    assert(listed@ =~= ast_node(path@, source@, *node, opt_view(parent), sibling as nat));
    nodes.push(listed);
    assert(views(nodes@) =~= start + tree_nodes(
        path@,
        source@,
        *node,
        opt_view(parent),
        sibling as nat,
    ));
}

} // verus!
