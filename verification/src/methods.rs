//! Collection keys, and the operations on collections that carry callables.
use crate::ids::Resolved;
use crate::lattice::int_key;
use crate::scope::{resolved_at, text_under, Scope, ScopeView};
use crate::syntax::{kind_of, lemma_part, named, part, text_of, IntLiteral, NodeKind, SyntaxNode};
use crate::text::{chars_of, opt_view, push_decimal, same_text, string_of};
use vstd::prelude::*;
use vstd::string::*;

verus! {

/// A text without the quotes at its start.
pub open spec fn without_front_quotes(s: Seq<char>) -> Seq<char>
    decreases s.len(),
{
    if s.len() > 0 && s[0] == '"' {
        without_front_quotes(s.drop_first())
    } else {
        s
    }
}

/// A text without the quotes at its end.
pub open spec fn without_back_quotes(s: Seq<char>) -> Seq<char>
    decreases s.len(),
{
    if s.len() > 0 && s.last() == '"' {
        without_back_quotes(s.drop_last())
    } else {
        s
    }
}

/// A text without the quotes around it.
pub fn unquoted(s: &str) -> (r: String)
    ensures
        r@ == without_back_quotes(without_front_quotes(s@)),
{
    let chars = chars_of(s);
    let n: usize = chars.len();
    let mut start: usize = 0;
    assert(s@.skip(0) =~= s@);
    while start < n && chars[start] == '"'
        invariant
            start <= n,
            n == chars@.len(),
            chars@ == s@,
            without_front_quotes(s@) == without_front_quotes(s@.skip(start as int)),
        ensures
            start <= n,
            without_front_quotes(s@) == s@.skip(start as int),
        decreases n - start,
    {
        assert(s@.skip(start as int).drop_first() =~= s@.skip(start + 1));
        start += 1;
    }
    let ghost front = s@.skip(start as int);
    let mut end: usize = n;
    assert(front.take(n - start) =~= front);
    while end > start && chars[end - 1] == '"'
        invariant
            start <= end <= n,
            n == chars@.len(),
            chars@ == s@,
            front == s@.skip(start as int),
            without_back_quotes(front) == without_back_quotes(front.take(end - start)),
        ensures
            start <= end <= n,
            without_back_quotes(front) == front.take(end - start),
        decreases end,
    {
        assert(front.take(end - start).drop_last() =~= front.take(end - start - 1));
        end -= 1;
    }
    let mut kept: Vec<char> = Vec::new();
    let mut i: usize = start;
    while i < end
        invariant
            start <= i <= end,
            end <= n,
            n == chars@.len(),
            chars@ == s@,
            front == s@.skip(start as int),
            kept@ == front.take(i - start),
        decreases end - i,
    {
        kept.push(chars[i]);
        assert(kept@ =~= front.take(i + 1 - start));
        i += 1;
    }
    string_of(&kept)
}

/// The collection key of a constant that a name stands for.
pub open spec fn constant_key_at(scope: ScopeView, node: SyntaxNode) -> Option<Seq<char>> {
    match resolved_at(scope, node) {
        Some(Resolved::Global(symbol)) => text_under(scope.names.constant_keys, symbol),
        _ => None,
    }
}

/// The collection key that an expression selects, where it is known. The key of a number is its
/// value; that of one beyond 64 bits is not known.
pub open spec fn key_of(scope: ScopeView, node: SyntaxNode) -> Option<Seq<char>>
    decreases node,
{
    proof {
        lemma_part(node, "expr"@);
        lemma_part(node, "inner"@);
    }
    match kind_of(node.kind@) {
        NodeKind::Number => match (text_of(scope.source, node), node.literal) {
            (Some(_), IntLiteral::Small(value)) => Some(int_key(value as nat)),
            _ => None,
        },
        NodeKind::Text => match text_of(scope.source, node) {
            Some(text) => Some("string:"@ + without_back_quotes(without_front_quotes(text))),
            None => None,
        },
        NodeKind::Boolean => match text_of(scope.source, node) {
            Some(text) => Some("bool:"@ + text),
            None => None,
        },
        NodeKind::Identifier => constant_key_at(scope, node),
        NodeKind::DotAccess => match part(node, "field"@) {
            Some(field) => constant_key_at(scope, field),
            None => constant_key_at(scope, node),
        },
        NodeKind::Parenthesized | NodeKind::NotNull => match part(node, "inner"@) {
            Some(inner) => key_of(scope, inner),
            None => None,
        },
        NodeKind::Cast => match part(node, "expr"@) {
            Some(inner) => key_of(scope, inner),
            None => None,
        },
        _ => None,
    }
}

fn prefixed(prefix: &str, text: &str) -> (r: String)
    ensures
        r@ == prefix@ + text@,
{
    let mut out = prefix.to_owned();
    out.append(text);
    out
}

impl<'a> Scope<'a> {
    fn constant_key(&self, node: &SyntaxNode) -> (r: Option<String>)
        ensures
            opt_view(r) == constant_key_at(self@, *node),
    {
        match self.resolved_node(node) {
            Some(Resolved::Global(symbol)) => match self.names.constant_keys.get(&symbol) {
                Some(key) => Some(key.clone()),
                None => None,
            },
            _ => None,
        }
    }

    /// The collection key that an expression selects, where it is known.
    pub fn collection_key(&self, node: &SyntaxNode) -> (r: Option<String>)
        ensures
            opt_view(r) == key_of(self@, *node),
        decreases node,
    {
        match node.node_kind() {
            NodeKind::Number => match node.text(self.source.as_str()) {
                Some(_) => match node.literal {
                    IntLiteral::Small(value) => {
                        let mut out = "int:".to_owned();
                        push_decimal(&mut out, value);
                        Some(out)
                    },
                    IntLiteral::Wide | IntLiteral::Invalid => None,
                },
                None => None,
            },
            NodeKind::Text => match node.text(self.source.as_str()) {
                Some(text) => Some(prefixed("string:", unquoted(text.as_str()).as_str())),
                None => None,
            },
            NodeKind::Boolean => match node.text(self.source.as_str()) {
                Some(text) => Some(prefixed("bool:", text.as_str())),
                None => None,
            },
            NodeKind::Identifier => self.constant_key(node),
            NodeKind::DotAccess => match node.part("field") {
                Some(field) => self.constant_key(field),
                None => self.constant_key(node),
            },
            NodeKind::Parenthesized | NodeKind::NotNull => match node.part("inner") {
                Some(inner) => self.collection_key(inner),
                None => None,
            },
            NodeKind::Cast => match node.part("expr") {
                Some(inner) => self.collection_key(inner),
                None => None,
            },
            _ => None,
        }
    }
}

/// The operations on collections.
#[derive(Debug, Clone, Copy, PartialEq, Eq, Structural)]
pub enum Method {
    Get,
    MustGet,
    First,
    Last,
    Pop,
    Push,
    /// Stores a value, and gives the collection.
    Store,
    /// Stores a value, and gives what was there before.
    StoreAndGet,
    /// Stores a value only where an entry exists, or only where none does.
    StoreIf,
    /// As `StoreIf`, and gives what is or was there.
    StoreIfAndGet,
    Delete,
    DeleteAndGet,
    /// Finds an entry by the order of the keys.
    Find,
    ToDictionary,
    LoadValue,
    GetHead,
    GetTail,
    PopHead,
    PrependHead,
    Pack,
    Unpack,
    Other,
}

/// The operation that a method name stands for.
pub open spec fn method_of(name: Seq<char>) -> Method {
    if name == "get"@ {
        Method::Get
    } else if name == "mustGet"@ {
        Method::MustGet
    } else if name == "first"@ {
        Method::First
    } else if name == "last"@ {
        Method::Last
    } else if name == "pop"@ {
        Method::Pop
    } else if name == "push"@ {
        Method::Push
    } else if name == "set"@ {
        Method::Store
    } else if name == "setAndGetPrevious"@ {
        Method::StoreAndGet
    } else if name == "replaceIfExists"@ || name == "addIfNotExists"@ {
        Method::StoreIf
    } else if name == "replaceAndGetPrevious"@ || name == "addOrGetExisting"@ {
        Method::StoreIfAndGet
    } else if name == "delete"@ {
        Method::Delete
    } else if name == "deleteAndGetDeleted"@ {
        Method::DeleteAndGet
    } else if name == "findFirst"@ || name == "findLast"@ || name == "findKeyGreater"@ || name
        == "findKeyGreaterOrEqual"@ || name == "findKeyLess"@ || name == "findKeyLessOrEqual"@
        || name == "iterateNext"@ || name == "iteratePrev"@ {
        Method::Find
    } else if name == "toLowLevelDict"@ {
        Method::ToDictionary
    } else if name == "loadValue"@ {
        Method::LoadValue
    } else if name == "getHead"@ {
        Method::GetHead
    } else if name == "getTail"@ {
        Method::GetTail
    } else if name == "popHead"@ {
        Method::PopHead
    } else if name == "prependHead"@ {
        Method::PrependHead
    } else if name == "toTuple"@ {
        Method::Pack
    } else if name == "fromTuple"@ {
        Method::Unpack
    } else {
        Method::Other
    }
}

/// The operation that a method name stands for.
pub fn classify_method(name: &str) -> (r: Method)
    ensures
        r == method_of(name@),
{
    if same_text(name, "get") {
        Method::Get
    } else if same_text(name, "mustGet") {
        Method::MustGet
    } else if same_text(name, "first") {
        Method::First
    } else if same_text(name, "last") {
        Method::Last
    } else if same_text(name, "pop") {
        Method::Pop
    } else if same_text(name, "push") {
        Method::Push
    } else if same_text(name, "set") {
        Method::Store
    } else if same_text(name, "setAndGetPrevious") {
        Method::StoreAndGet
    } else if same_text(name, "replaceIfExists") || same_text(name, "addIfNotExists") {
        Method::StoreIf
    } else if same_text(name, "replaceAndGetPrevious") || same_text(name, "addOrGetExisting") {
        Method::StoreIfAndGet
    } else if same_text(name, "delete") {
        Method::Delete
    } else if same_text(name, "deleteAndGetDeleted") {
        Method::DeleteAndGet
    } else if same_text(name, "findFirst") || same_text(name, "findLast") || same_text(
        name,
        "findKeyGreater",
    ) || same_text(name, "findKeyGreaterOrEqual") || same_text(name, "findKeyLess") || same_text(
        name,
        "findKeyLessOrEqual",
    ) || same_text(name, "iterateNext") || same_text(name, "iteratePrev") {
        Method::Find
    } else if same_text(name, "toLowLevelDict") {
        Method::ToDictionary
    } else if same_text(name, "loadValue") {
        Method::LoadValue
    } else if same_text(name, "getHead") {
        Method::GetHead
    } else if same_text(name, "getTail") {
        Method::GetTail
    } else if same_text(name, "popHead") {
        Method::PopHead
    } else if same_text(name, "prependHead") {
        Method::PrependHead
    } else if same_text(name, "toTuple") {
        Method::Pack
    } else if same_text(name, "fromTuple") {
        Method::Unpack
    } else {
        Method::Other
    }
}

/// The functions of the standard library that make collections.
#[derive(Debug, Clone, Copy, PartialEq, Eq, Structural)]
pub enum Maker {
    Empty,
    FromDictionary,
    Other,
}

/// The maker of collections that a function name stands for.
pub open spec fn maker_of(name: Seq<char>) -> Maker {
    if name == "createEmptyMap"@ || name == "createEmptyTuple"@ {
        Maker::Empty
    } else if name == "createMapFromLowLevelDict"@ {
        Maker::FromDictionary
    } else {
        Maker::Other
    }
}

/// The maker of collections that a function name stands for.
pub fn classify_maker(name: &str) -> (r: Maker)
    ensures
        r == maker_of(name@),
{
    if same_text(name, "createEmptyMap") || same_text(name, "createEmptyTuple") {
        Maker::Empty
    } else if same_text(name, "createMapFromLowLevelDict") {
        Maker::FromDictionary
    } else {
        Maker::Other
    }
}

/// What a call calls, behind its type arguments.
pub open spec fn callee_of(call: SyntaxNode) -> Option<SyntaxNode> {
    match part(call, "callee"@) {
        Some(callee) => if kind_of(callee.kind@) is Generic {
            part(callee, "expr"@)
        } else {
            Some(callee)
        },
        None => None,
    }
}

/// The object of which a call calls a method.
pub open spec fn receiver_of(call: SyntaxNode) -> Option<SyntaxNode> {
    match callee_of(call) {
        Some(callee) => if kind_of(callee.kind@) is DotAccess {
            part(callee, "obj"@)
        } else {
            None
        },
        None => None,
    }
}

/// The name of the method that a call calls.
pub open spec fn method_field_of(call: SyntaxNode) -> Option<SyntaxNode> {
    match callee_of(call) {
        Some(callee) => if kind_of(callee.kind@) is DotAccess {
            part(callee, "field"@)
        } else {
            None
        },
        None => None,
    }
}

/// The expressions of arguments.
pub open spec fn expressions(items: Seq<SyntaxNode>) -> Seq<SyntaxNode>
    decreases items.len(),
{
    if items.len() == 0 {
        Seq::empty()
    } else {
        let rest = expressions(items.drop_last());
        match part(items.last(), "expr"@) {
            Some(value) => rest.push(value),
            None => rest,
        }
    }
}

/// The arguments of a call.
pub open spec fn arguments_of(call: SyntaxNode) -> Seq<SyntaxNode> {
    match part(call, "arguments"@) {
        Some(list) => expressions(named(list)),
        None => Seq::empty(),
    }
}

/// The nodes behind references.
pub open spec fn pointees(nodes: Seq<&SyntaxNode>) -> Seq<SyntaxNode> {
    Seq::new(nodes.len(), |i: int| *nodes[i])
}

impl SyntaxNode {
    /// What a call calls, behind its type arguments.
    pub fn called(&self) -> (r: Option<&SyntaxNode>)
        ensures
            r is Some <==> callee_of(*self) is Some,
            r matches Some(c) ==> Some(*c) == callee_of(*self),
    {
        match self.part("callee") {
            Some(callee) => if let NodeKind::Generic = callee.node_kind() {
                callee.part("expr")
            } else {
                Some(callee)
            },
            None => None,
        }
    }

    /// The object of which a call calls a method.
    pub fn receiver(&self) -> (r: Option<&SyntaxNode>)
        ensures
            r is Some <==> receiver_of(*self) is Some,
            r matches Some(c) ==> Some(*c) == receiver_of(*self),
    {
        match self.called() {
            Some(callee) => if let NodeKind::DotAccess = callee.node_kind() {
                callee.part("obj")
            } else {
                None
            },
            None => None,
        }
    }

    /// The name of the method that a call calls.
    pub fn method_field(&self) -> (r: Option<&SyntaxNode>)
        ensures
            r is Some <==> method_field_of(*self) is Some,
            r matches Some(c) ==> Some(*c) == method_field_of(*self),
    {
        match self.called() {
            Some(callee) => if let NodeKind::DotAccess = callee.node_kind() {
                callee.part("field")
            } else {
                None
            },
            None => None,
        }
    }

    /// The arguments of a call.
    pub fn call_arguments(&self) -> (r: Vec<&SyntaxNode>)
        ensures
            pointees(r@) == arguments_of(*self),
    {
        let mut out: Vec<&SyntaxNode> = Vec::new();
        let list = match self.part("arguments") {
            Some(list) => list,
            None => {
                assert(pointees(out@) =~= Seq::empty());
                return out;
            },
        };
        let items = list.named_children();
        let ghost all = named(*list);
        let n: usize = items.len();
        let mut i: usize = 0;
        assert(all.take(0) =~= Seq::empty());
        assert(pointees(out@) =~= Seq::empty());
        while i < n
            invariant
                i <= n,
                n == items@.len(),
                n == all.len(),
                forall|j: int| 0 <= j < n ==> *(#[trigger] items@[j]) == all[j],
                pointees(out@) == expressions(all.take(i as int)),
            decreases n - i,
        {
            proof {
                assert(all.take(i + 1).drop_last() =~= all.take(i as int));
                assert(all.take(i + 1).last() == all[i as int]);
            }
            let ghost before = out@;
            match items[i].part("expr") {
                Some(value) => {
                    out.push(value);
                    assert(pointees(out@) =~= pointees(before).push(*value));
                },
                None => {},
            }
            i += 1;
        }
        assert(all.take(n as int) =~= all);
        out
    }
}

} // verus!
