//! Laws of names: which operations, keys and words texts stand for.
use crate::ids::Resolved;
use crate::methods::{key_of, maker_of, method_of, without_back_quotes, without_front_quotes};
use crate::scope::{place, ScopeView};
use crate::syntax::{kinds_go_by_text, part, text_of, IntLiteral, SyntaxNode};
use crate::text::decimal;
use crate::values::wrapped;
use vstd::prelude::*;

verus! {

/// Each operation on collections goes by its own names, and every other name is of none.
pub proof fn methods_go_by_name(name: Seq<char>)
    ensures
        method_of(name) is Get <==> name == "get"@,
        method_of(name) is MustGet <==> name == "mustGet"@,
        method_of(name) is First <==> name == "first"@,
        method_of(name) is Last <==> name == "last"@,
        method_of(name) is Pop <==> name == "pop"@,
        method_of(name) is Push <==> name == "push"@,
        method_of(name) is Store <==> name == "set"@,
        method_of(name) is StoreAndGet <==> name == "setAndGetPrevious"@,
        method_of(name) is StoreIf <==> name == "replaceIfExists"@ || name == "addIfNotExists"@,
        method_of(name) is StoreIfAndGet <==> name == "replaceAndGetPrevious"@ || name == "addOrGetExisting"@,
        method_of(name) is Delete <==> name == "delete"@,
        method_of(name) is DeleteAndGet <==> name == "deleteAndGetDeleted"@,
        method_of(name) is Find <==> name == "findFirst"@ || name == "findLast"@ || name == "findKeyGreater"@ || name == "findKeyGreaterOrEqual"@ || name == "findKeyLess"@ || name == "findKeyLessOrEqual"@ || name == "iterateNext"@ || name == "iteratePrev"@,
        method_of(name) is ToDictionary <==> name == "toLowLevelDict"@,
        method_of(name) is LoadValue <==> name == "loadValue"@,
        method_of(name) is GetHead <==> name == "getHead"@,
        method_of(name) is GetTail <==> name == "getTail"@,
        method_of(name) is PopHead <==> name == "popHead"@,
        method_of(name) is PrependHead <==> name == "prependHead"@,
        method_of(name) is Pack <==> name == "toTuple"@,
        method_of(name) is Unpack <==> name == "fromTuple"@,
{
    reveal_strlit("get");
    reveal_strlit("mustGet");
    reveal_strlit("first");
    reveal_strlit("last");
    reveal_strlit("pop");
    reveal_strlit("push");
    reveal_strlit("set");
    reveal_strlit("setAndGetPrevious");
    reveal_strlit("replaceIfExists");
    reveal_strlit("addIfNotExists");
    reveal_strlit("replaceAndGetPrevious");
    reveal_strlit("addOrGetExisting");
    reveal_strlit("delete");
    reveal_strlit("deleteAndGetDeleted");
    reveal_strlit("findFirst");
    reveal_strlit("findLast");
    reveal_strlit("findKeyGreater");
    reveal_strlit("findKeyGreaterOrEqual");
    reveal_strlit("findKeyLess");
    reveal_strlit("findKeyLessOrEqual");
    reveal_strlit("iterateNext");
    reveal_strlit("iteratePrev");
    reveal_strlit("toLowLevelDict");
    reveal_strlit("loadValue");
    reveal_strlit("getHead");
    reveal_strlit("getTail");
    reveal_strlit("popHead");
    reveal_strlit("prependHead");
    reveal_strlit("toTuple");
    reveal_strlit("fromTuple");
    assert("get"@.len() == 3 && "get"@[0] == 'g' && "get"@[2] == 't');
    assert("mustGet"@.len() == 7 && "mustGet"@[0] == 'm' && "mustGet"@[6] == 't');
    assert("first"@.len() == 5 && "first"@[0] == 'f' && "first"@[4] == 't');
    assert("last"@.len() == 4 && "last"@[0] == 'l' && "last"@[3] == 't');
    assert("pop"@.len() == 3 && "pop"@[0] == 'p' && "pop"@[2] == 'p');
    assert("push"@.len() == 4 && "push"@[0] == 'p' && "push"@[3] == 'h');
    assert("set"@.len() == 3 && "set"@[0] == 's' && "set"@[2] == 't');
    assert("setAndGetPrevious"@.len() == 17 && "setAndGetPrevious"@[0] == 's' && "setAndGetPrevious"@[16] == 's');
    assert("replaceIfExists"@.len() == 15 && "replaceIfExists"@[0] == 'r' && "replaceIfExists"@[14] == 's');
    assert("addIfNotExists"@.len() == 14 && "addIfNotExists"@[0] == 'a' && "addIfNotExists"@[13] == 's');
    assert("replaceAndGetPrevious"@.len() == 21 && "replaceAndGetPrevious"@[0] == 'r' && "replaceAndGetPrevious"@[20] == 's');
    assert("addOrGetExisting"@.len() == 16 && "addOrGetExisting"@[0] == 'a' && "addOrGetExisting"@[15] == 'g');
    assert("delete"@.len() == 6 && "delete"@[0] == 'd' && "delete"@[5] == 'e');
    assert("deleteAndGetDeleted"@.len() == 19 && "deleteAndGetDeleted"@[0] == 'd' && "deleteAndGetDeleted"@[18] == 'd');
    assert("findFirst"@.len() == 9 && "findFirst"@[0] == 'f' && "findFirst"@[8] == 't');
    assert("findLast"@.len() == 8 && "findLast"@[0] == 'f' && "findLast"@[7] == 't');
    assert("findKeyGreater"@.len() == 14 && "findKeyGreater"@[0] == 'f' && "findKeyGreater"@[13] == 'r');
    assert("findKeyGreaterOrEqual"@.len() == 21 && "findKeyGreaterOrEqual"@[0] == 'f' && "findKeyGreaterOrEqual"@[20] == 'l');
    assert("findKeyLess"@.len() == 11 && "findKeyLess"@[0] == 'f' && "findKeyLess"@[10] == 's');
    assert("findKeyLessOrEqual"@.len() == 18 && "findKeyLessOrEqual"@[0] == 'f' && "findKeyLessOrEqual"@[17] == 'l');
    assert("iterateNext"@.len() == 11 && "iterateNext"@[0] == 'i' && "iterateNext"@[10] == 't');
    assert("iteratePrev"@.len() == 11 && "iteratePrev"@[0] == 'i' && "iteratePrev"@[10] == 'v');
    assert("toLowLevelDict"@.len() == 14 && "toLowLevelDict"@[0] == 't' && "toLowLevelDict"@[13] == 't');
    assert("loadValue"@.len() == 9 && "loadValue"@[0] == 'l' && "loadValue"@[8] == 'e');
    assert("getHead"@.len() == 7 && "getHead"@[0] == 'g' && "getHead"@[6] == 'd');
    assert("getTail"@.len() == 7 && "getTail"@[0] == 'g' && "getTail"@[6] == 'l');
    assert("popHead"@.len() == 7 && "popHead"@[0] == 'p' && "popHead"@[6] == 'd');
    assert("prependHead"@.len() == 11 && "prependHead"@[0] == 'p' && "prependHead"@[10] == 'd');
    assert("toTuple"@.len() == 7 && "toTuple"@[0] == 't' && "toTuple"@[6] == 'e');
    assert("fromTuple"@.len() == 9 && "fromTuple"@[0] == 'f' && "fromTuple"@[8] == 'e');
}

/// The functions that make collections go by their names.
pub proof fn makers_go_by_name(name: Seq<char>)
    ensures
        maker_of(name) is Empty <==> name == "createEmptyMap"@ || name == "createEmptyTuple"@,
        maker_of(name) is FromDictionary <==> name == "createMapFromLowLevelDict"@,
{
    reveal_strlit("createEmptyMap");
    reveal_strlit("createEmptyTuple");
    reveal_strlit("createMapFromLowLevelDict");
    assert("createEmptyMap"@.len() == 14);
    assert("createEmptyTuple"@.len() == 16);
    assert("createMapFromLowLevelDict"@.len() == 25);
}

/// A text without the quotes around it.
proof fn lemma_quotes(text: Seq<char>)
    requires
        text.len() == 0 || text[0] != '"' && text.last() != '"',
    ensures
        without_back_quotes(without_front_quotes(seq!['"'] + text + seq!['"'])) == text,
{
    let whole = seq!['"'] + text + seq!['"'];
    let rest = text + seq!['"'];
    assert(whole.drop_first() =~= rest);
    if text.len() == 0 {
        assert(rest =~= seq!['"']);
        assert(rest.drop_first() =~= Seq::empty());
        assert(without_front_quotes(Seq::empty()) == Seq::<char>::empty());
        assert(without_front_quotes(rest) == Seq::<char>::empty());
        assert(text =~= Seq::empty());
    } else {
        assert(rest[0] == text[0]);
        assert(without_front_quotes(rest) == rest);
        assert(rest.drop_last() =~= text);
        assert(without_back_quotes(text) == text);
    }
}

/// A literal selects the entry of its value: a number by its decimal, a text without its quotes,
/// a truth value by its word. A constant selects the entry of what it evaluates to, and a wrapped
/// expression that of what it wraps.
pub proof fn literals_select_their_value(scope: ScopeView, node: SyntaxNode, text: Seq<char>)
    ensures
        node.kind@ == "number_literal"@ && text_of(scope.source, node) is Some ==> (
        match node.literal {
            IntLiteral::Small(n) => key_of(scope, node) == Some("int:"@ + decimal(n as nat)),
            _ => key_of(scope, node) is None,
        }),
        node.kind@ == "string_literal"@ && text_of(scope.source, node) == Some(
            seq!['"'] + text + seq!['"'],
        ) && (text.len() == 0 || text[0] != '"' && text.last() != '"') ==> key_of(scope, node)
            == Some("string:"@ + text),
        node.kind@ == "boolean_literal"@ && text_of(scope.source, node) == Some(text) ==> key_of(
            scope,
            node,
        ) == Some("bool:"@ + text),
        node.kind@ == "identifier"@ ==> (match key_of(scope, node) {
            Some(key) => selects_constant(scope, node, key),
            None => forall|key: Seq<char>| !selects_constant(scope, node, key),
        }),
        node.kind@ == "dot_access"@ && part(node, "field"@) is Some ==> (match key_of(
            scope,
            node,
        ) {
            Some(key) => selects_constant(scope, part(node, "field"@)->Some_0, key),
            None => forall|key: Seq<char>|
                !selects_constant(scope, part(node, "field"@)->Some_0, key),
        }),
        wrapped(node) is Some && node.kind@ != "generic_instantiation"@ ==> key_of(scope, node)
            == key_of(scope, wrapped(node)->Some_0),
{
    kinds_go_by_text(node.kind@);
    if text.len() == 0 || text[0] != '"' && text.last() != '"' {
        lemma_quotes(text);
    }
}

/// The name at a node stands for a constant with a key.
pub open spec fn selects_constant(scope: ScopeView, node: SyntaxNode, key: Seq<char>) -> bool {
    &&& scope.names.resolved.contains_key(place(scope.file, node))
    &&& scope.names.resolved[place(scope.file, node)] matches Resolved::Global(symbol)
        && scope.names.constant_keys.contains_key(symbol) && scope.names.constant_keys[symbol]
        == key
}

} // verus!
