//! Syntax trees, and how to find parts of them.
use crate::text::{byte_slice, opt_view, same_text, slice_bytes};
use vstd::prelude::*;

verus! {

/// The value of a number literal.
#[derive(Debug, Clone, Copy, PartialEq, Eq, Structural)]
pub enum IntLiteral {
    /// Not a number literal, or one that does not parse.
    Invalid,
    /// A number beyond 64 bits.
    Wide,
    Small(u64),
}

/// A node of a syntax tree, with the range of bytes that it covers.
#[derive(Debug)]
pub struct SyntaxNode {
    pub kind: String,
    pub start: u32,
    pub end: u32,
    pub named: bool,
    pub error: bool,
    pub missing: bool,
    /// The field of the parent that holds this node.
    pub field: Option<String>,
    pub literal: IntLiteral,
    pub children: Vec<SyntaxNode>,
}

/// The kinds of nodes that decide what an expression may be called as.
#[derive(Debug, Clone, Copy, PartialEq, Eq, Structural)]
pub enum NodeKind {
    Identifier,
    Lambda,
    Call,
    DotAccess,
    Generic,
    Parenthesized,
    NotNull,
    Cast,
    Ternary,
    Tensor,
    TypedTuple,
    Object,
    Number,
    Text,
    Boolean,
    Null,
    Declaration,
    Assignment,
    Other,
}

/// The kind that a grammar name stands for.
pub open spec fn kind_of(raw: Seq<char>) -> NodeKind {
    if raw == "identifier"@ {
        NodeKind::Identifier
    } else if raw == "lambda_expression"@ {
        NodeKind::Lambda
    } else if raw == "function_call"@ {
        NodeKind::Call
    } else if raw == "dot_access"@ {
        NodeKind::DotAccess
    } else if raw == "generic_instantiation"@ {
        NodeKind::Generic
    } else if raw == "parenthesized_expression"@ {
        NodeKind::Parenthesized
    } else if raw == "not_null_operator"@ {
        NodeKind::NotNull
    } else if raw == "cast_as_operator"@ {
        NodeKind::Cast
    } else if raw == "ternary_operator"@ {
        NodeKind::Ternary
    } else if raw == "tensor_expression"@ {
        NodeKind::Tensor
    } else if raw == "typed_tuple"@ {
        NodeKind::TypedTuple
    } else if raw == "object_literal"@ {
        NodeKind::Object
    } else if raw == "number_literal"@ {
        NodeKind::Number
    } else if raw == "string_literal"@ {
        NodeKind::Text
    } else if raw == "boolean_literal"@ {
        NodeKind::Boolean
    } else if raw == "null_literal"@ {
        NodeKind::Null
    } else if raw == "var_declaration_lhs"@ {
        NodeKind::Declaration
    } else if raw == "assignment"@ {
        NodeKind::Assignment
    } else {
        NodeKind::Other
    }
}

/// The kind that a grammar name stands for.
pub fn classify(raw: &str) -> (r: NodeKind)
    ensures
        r == kind_of(raw@),
{
    if same_text(raw, "identifier") {
        NodeKind::Identifier
    } else if same_text(raw, "lambda_expression") {
        NodeKind::Lambda
    } else if same_text(raw, "function_call") {
        NodeKind::Call
    } else if same_text(raw, "dot_access") {
        NodeKind::DotAccess
    } else if same_text(raw, "generic_instantiation") {
        NodeKind::Generic
    } else if same_text(raw, "parenthesized_expression") {
        NodeKind::Parenthesized
    } else if same_text(raw, "not_null_operator") {
        NodeKind::NotNull
    } else if same_text(raw, "cast_as_operator") {
        NodeKind::Cast
    } else if same_text(raw, "ternary_operator") {
        NodeKind::Ternary
    } else if same_text(raw, "tensor_expression") {
        NodeKind::Tensor
    } else if same_text(raw, "typed_tuple") {
        NodeKind::TypedTuple
    } else if same_text(raw, "object_literal") {
        NodeKind::Object
    } else if same_text(raw, "number_literal") {
        NodeKind::Number
    } else if same_text(raw, "string_literal") {
        NodeKind::Text
    } else if same_text(raw, "boolean_literal") {
        NodeKind::Boolean
    } else if same_text(raw, "null_literal") {
        NodeKind::Null
    } else if same_text(raw, "var_declaration_lhs") {
        NodeKind::Declaration
    } else if same_text(raw, "assignment") {
        NodeKind::Assignment
    } else {
        NodeKind::Other
    }
}

/// The first position from `i` on of a child in a field.
pub open spec fn field_from(children: Seq<SyntaxNode>, name: Seq<char>, i: int) -> int
    decreases children.len() - i,
{
    if 0 <= i < children.len() {
        if opt_view(children[i].field) == Some(name) {
            i
        } else {
            field_from(children, name, i + 1)
        }
    } else {
        -1
    }
}

/// The first child in a field of a node.
pub open spec fn part(node: SyntaxNode, name: Seq<char>) -> Option<SyntaxNode> {
    let i = field_from(node.children@, name, 0);
    if 0 <= i < node.children@.len() {
        Some(node.children@[i])
    } else {
        None
    }
}

/// The children of a node that are named in the grammar.
pub open spec fn named(node: SyntaxNode) -> Seq<SyntaxNode> {
    node.children@.filter(|c: SyntaxNode| c.named)
}

/// The text of a node.
pub open spec fn text_of(source: Seq<char>, node: SyntaxNode) -> Option<Seq<char>> {
    byte_slice(source, node.start as int, node.end as int)
}

/// The kind of a node is that of its grammar name, and every other name is of no kind of its own.
pub proof fn kinds_go_by_text(raw: Seq<char>)
    ensures
        kind_of(raw) is Identifier <==> raw == "identifier"@,
        kind_of(raw) is Lambda <==> raw == "lambda_expression"@,
        kind_of(raw) is Call <==> raw == "function_call"@,
        kind_of(raw) is DotAccess <==> raw == "dot_access"@,
        kind_of(raw) is Generic <==> raw == "generic_instantiation"@,
        kind_of(raw) is Parenthesized <==> raw == "parenthesized_expression"@,
        kind_of(raw) is NotNull <==> raw == "not_null_operator"@,
        kind_of(raw) is Cast <==> raw == "cast_as_operator"@,
        kind_of(raw) is Ternary <==> raw == "ternary_operator"@,
        kind_of(raw) is Tensor <==> raw == "tensor_expression"@,
        kind_of(raw) is TypedTuple <==> raw == "typed_tuple"@,
        kind_of(raw) is Object <==> raw == "object_literal"@,
        kind_of(raw) is Number <==> raw == "number_literal"@,
        kind_of(raw) is Text <==> raw == "string_literal"@,
        kind_of(raw) is Boolean <==> raw == "boolean_literal"@,
        kind_of(raw) is Null <==> raw == "null_literal"@,
        kind_of(raw) is Declaration <==> raw == "var_declaration_lhs"@,
        kind_of(raw) is Assignment <==> raw == "assignment"@,
{
    reveal_strlit("identifier");
    reveal_strlit("lambda_expression");
    reveal_strlit("function_call");
    reveal_strlit("dot_access");
    reveal_strlit("generic_instantiation");
    reveal_strlit("parenthesized_expression");
    reveal_strlit("not_null_operator");
    reveal_strlit("cast_as_operator");
    reveal_strlit("ternary_operator");
    reveal_strlit("tensor_expression");
    reveal_strlit("typed_tuple");
    reveal_strlit("object_literal");
    reveal_strlit("number_literal");
    reveal_strlit("string_literal");
    reveal_strlit("boolean_literal");
    reveal_strlit("null_literal");
    reveal_strlit("var_declaration_lhs");
    reveal_strlit("assignment");
    assert("identifier"@.len() == 10 && "identifier"@[0] == 'i');
    assert("lambda_expression"@.len() == 17 && "lambda_expression"@[0] == 'l');
    assert("function_call"@.len() == 13 && "function_call"@[0] == 'f');
    assert("dot_access"@.len() == 10 && "dot_access"@[0] == 'd');
    assert("generic_instantiation"@.len() == 21 && "generic_instantiation"@[0] == 'g');
    assert("parenthesized_expression"@.len() == 24 && "parenthesized_expression"@[0] == 'p');
    assert("not_null_operator"@.len() == 17 && "not_null_operator"@[0] == 'n');
    assert("cast_as_operator"@.len() == 16 && "cast_as_operator"@[0] == 'c');
    assert("ternary_operator"@.len() == 16 && "ternary_operator"@[0] == 't');
    assert("tensor_expression"@.len() == 17 && "tensor_expression"@[0] == 't');
    assert("typed_tuple"@.len() == 11 && "typed_tuple"@[0] == 't');
    assert("object_literal"@.len() == 14 && "object_literal"@[0] == 'o');
    assert("number_literal"@.len() == 14 && "number_literal"@[0] == 'n');
    assert("string_literal"@.len() == 14 && "string_literal"@[0] == 's');
    assert("boolean_literal"@.len() == 15 && "boolean_literal"@[0] == 'b');
    assert("null_literal"@.len() == 12 && "null_literal"@[0] == 'n');
    assert("var_declaration_lhs"@.len() == 19 && "var_declaration_lhs"@[0] == 'v');
    assert("assignment"@.len() == 10 && "assignment"@[0] == 'a');
}

/// A child is smaller than its parent.
pub proof fn lemma_child(node: SyntaxNode, i: int)
    requires
        0 <= i < node.children@.len(),
    ensures
        decreases_to!(node => node.children@[i]),
{
    assert(decreases_to!(node => node.children));
    assert(decreases_to!(node.children => node.children@));
    assert(decreases_to!(node.children@ => node.children@[i]));
}

pub proof fn lemma_part(node: SyntaxNode, name: Seq<char>)
    ensures
        part(node, name) matches Some(c) ==> decreases_to!(node => c),
{
    let i = field_from(node.children@, name, 0);
    if 0 <= i < node.children@.len() {
        lemma_child(node, i);
    }
}

pub proof fn lemma_named(node: SyntaxNode, i: int)
    requires
        0 <= i < named(node).len(),
    ensures
        decreases_to!(node => named(node)[i]),
{
    let keep = |c: SyntaxNode| c.named;
    assert(named(node).contains(named(node)[i]));
    node.children@.lemma_filter_contains_rev(keep, named(node)[i]);
    assert(node.children@.contains(named(node)[i]));
    let j = choose|j: int| 0 <= j < node.children@.len() && node.children@[j] == named(node)[i];
    lemma_child(node, j);
}

/// The children that are named in the grammar keep their order, and no other child is among them.
pub proof fn named_children_are_children(node: SyntaxNode, c: SyntaxNode)
    ensures
        named(node).contains(c) <==> node.children@.contains(c) && c.named,
        forall|i: int| 0 <= i < named(node).len() ==> (#[trigger] named(node)[i]).named,
        (forall|i: int| 0 <= i < node.children@.len() ==> (#[trigger] node.children@[i]).named)
            ==> named(node) == node.children@,
{
    let keep = |c: SyntaxNode| c.named;
    if node.children@.contains(c) && c.named {
        let k = choose|k: int| 0 <= k < node.children@.len() && node.children@[k] == c;
        node.children@.lemma_filter_contains(keep, k);
    }
    if named(node).contains(c) {
        node.children@.lemma_filter_contains_rev(keep, c);
        node.children@.lemma_filter_pred(keep, named(node).index_of(c));
    }
    assert forall|i: int| 0 <= i < named(node).len() implies (#[trigger] named(node)[i]).named by {
        node.children@.lemma_filter_pred(keep, i);
    }
    if forall|i: int| 0 <= i < node.children@.len() ==> (#[trigger] node.children@[i]).named {
        lemma_all_kept(node.children@);
    }
}

proof fn lemma_all_kept(list: Seq<SyntaxNode>)
    requires
        forall|i: int| 0 <= i < list.len() ==> (#[trigger] list[i]).named,
    ensures
        list.filter(|c: SyntaxNode| c.named) == list,
    decreases list.len(),
{
    reveal(Seq::filter);
    if list.len() > 0 {
        lemma_all_kept(list.drop_last());
        assert(list.last().named) by {
            assert(list[list.len() - 1].named);
        }
        assert(list =~= list.drop_last().push(list.last()));
    }
}

/// The part of a node in a field is the first of its children in that field.
pub proof fn parts_are_first_in_their_field(node: SyntaxNode, name: Seq<char>)
    ensures
        match part(node, name) {
            Some(c) => exists|i: int|
                0 <= i < node.children@.len() && #[trigger] node.children@[i] == c && (
                c.field matches Some(text) && text@ == name) && forall|j: int|
                    0 <= j < i ==> !((#[trigger] node.children@[j]).field matches Some(text)
                        && text@ == name),
            None => forall|j: int|
                0 <= j < node.children@.len() ==> !((#[trigger] node.children@[j]).field matches Some(
                    text,
                ) && text@ == name),
        },
{
    lemma_field_from(node.children@, name, 0);
}

proof fn lemma_field_from(children: Seq<SyntaxNode>, name: Seq<char>, from: int)
    requires
        0 <= from <= children.len(),
    ensures
        ({
            let i = field_from(children, name, from);
            &&& i == -1 || from <= i < children.len()
            &&& i >= 0 ==> (children[i].field matches Some(text) && text@ == name)
            &&& forall|j: int|
                from <= j < (if i >= 0 {
                    i
                } else {
                    children.len() as int
                }) ==> !((#[trigger] children[j]).field matches Some(text) && text@ == name)
        }),
    decreases children.len() - from,
{
    if from < children.len() && !(opt_view(children[from].field) == Some(name)) {
        lemma_field_from(children, name, from + 1);
    }
}

/// A path leads on from the node at which it stood to one of its children.
pub proof fn paths_lead_to_children(root: SyntaxNode, path: Seq<usize>, k: usize)
    ensures
        node_at(root, Seq::empty()) == Some(root),
        node_at(root, path.push(k)) == (match node_at(root, path) {
            Some(node) => if k < node.children@.len() {
                Some(node.children@[k as int])
            } else {
                None
            },
            None => None,
        }),
    decreases path.len(),
{
    if path.len() == 0 {
        assert(path.push(k).drop_first() =~= Seq::empty());
        assert(path =~= Seq::empty());
        if k < root.children@.len() {
            let child = root.children@[k as int];
            assert(node_at(child, Seq::empty()) == Some(child));
        }
    } else {
        assert(path.push(k).drop_first() =~= path.drop_first().push(k));
        if path[0] < root.children@.len() {
            paths_lead_to_children(root.children@[path[0] as int], path.drop_first(), k);
        }
    }
}

impl SyntaxNode {
    pub fn node_kind(&self) -> (r: NodeKind)
        ensures
            r == kind_of(self.kind@),
    {
        classify(self.kind.as_str())
    }

    /// The first child in a field.
    pub fn part(&self, name: &str) -> (r: Option<&SyntaxNode>)
        ensures
            r is Some <==> part(*self, name@) is Some,
            r matches Some(c) ==> Some(*c) == part(*self, name@) && decreases_to!(self => c),
    {
        let n: usize = self.children.len();
        let mut i: usize = 0;
        while i < n
            invariant
                i <= n,
                n == self.children@.len(),
                field_from(self.children@, name@, 0) == field_from(
                    self.children@,
                    name@,
                    i as int,
                ),
            decreases n - i,
        {
            let found = match &self.children[i].field {
                Some(field) => same_text(field.as_str(), name),
                None => false,
            };
            if found {
                proof {
                    lemma_child(*self, i as int);
                }
                return Some(&self.children[i]);
            }
            i += 1;
        }
        None
    }

    /// The children that are named in the grammar.
    pub fn named_children(&self) -> (r: Vec<&SyntaxNode>)
        ensures
            r@.len() == named(*self).len(),
            forall|i: int| 0 <= i < r@.len() ==> *(#[trigger] r@[i]) == named(*self)[i],
    {
        let ghost keep = |c: SyntaxNode| c.named;
        let n: usize = self.children.len();
        let mut out: Vec<&SyntaxNode> = Vec::new();
        let mut i: usize = 0;
        assert(self.children@.take(0).filter(keep) =~= Seq::empty()) by {
            reveal(Seq::filter);
        }
        while i < n
            invariant
                i <= n,
                n == self.children@.len(),
                keep == (|c: SyntaxNode| c.named),
                out@.len() == self.children@.take(i as int).filter(keep).len(),
                forall|j: int|
                    0 <= j < out@.len() ==> *(#[trigger] out@[j]) == self.children@.take(
                        i as int,
                    ).filter(keep)[j],
            decreases n - i,
        {
            proof {
                let all = self.children@;
                assert(all.take(i + 1).drop_last() =~= all.take(i as int));
                assert(all.take(i + 1).last() == all[i as int]);
                reveal(Seq::filter);
            }
            if self.children[i].named {
                out.push(&self.children[i]);
            }
            i += 1;
        }
        assert(self.children@.take(n as int) =~= self.children@);
        out
    }

    /// The text that the node covers.
    pub fn text(&self, source: &str) -> (r: Option<String>)
        ensures
            opt_view(r) == text_of(source@, *self),
    {
        slice_bytes(source, self.start as usize, self.end as usize)
    }
}

/// The node at the end of a path of child positions.
pub open spec fn node_at(root: SyntaxNode, path: Seq<usize>) -> Option<SyntaxNode>
    decreases path.len(),
{
    if path.len() == 0 {
        Some(root)
    } else if path[0] < root.children@.len() {
        node_at(root.children@[path[0] as int], path.drop_first())
    } else {
        None
    }
}

/// The node at the end of the first `depth` steps of a path of child positions.
pub fn find_node<'a>(root: &'a SyntaxNode, path: &Vec<usize>, depth: usize) -> (r: Option<
    &'a SyntaxNode,
>)
    requires
        depth <= path@.len(),
    ensures
        r is Some <==> node_at(*root, path@.take(depth as int)) is Some,
        r matches Some(c) ==> Some(*c) == node_at(*root, path@.take(depth as int)),
{
    let mut node = root;
    let mut i: usize = 0;
    let ghost steps = path@.take(depth as int);
    assert(steps.skip(0) =~= steps);
    while i < depth
        invariant
            i <= depth,
            depth <= path@.len(),
            steps == path@.take(depth as int),
            node_at(*root, steps) == node_at(*node, steps.skip(i as int)),
        decreases depth - i,
    {
        let step: usize = path[i];
        assert(steps.skip(i as int)[0] == step);
        assert(steps.skip(i as int).drop_first() =~= steps.skip(i + 1));
        if step >= node.children.len() {
            return None;
        }
        node = &node.children[step];
        i += 1;
    }
    Some(node)
}

} // verus!
