//! Laws of the callables whose control flow is known.
use crate::definitions::{
    captures_in, file_definitions_from, lambda_definition, lambda_definitions_from, mutability_of,
    node_in, parameters_of, project_definitions, symbol_definition, symbol_definitions_from,
};
use crate::facts::{file_from, file_symbols, lemma_found_file, FileFacts, SymbolFact};
use crate::graphs::lambda_graph_from;
use crate::ids::{Span, SpanKey, SymbolRef};
use crate::program::DefinitionView;
use crate::scope::NamesView;
use crate::syntax::{node_at, SyntaxNode};
use crate::tables::{ascending, lemma_ascending};
use vstd::prelude::*;

verus! {

/// A definition is that of a declared symbol: its graph, its parameters, each mutable where its
/// declaration says so, and no captures.
pub open spec fn defines_symbol(
    file: FileFacts,
    s: SymbolFact,
    node: SyntaxNode,
    d: DefinitionView,
) -> bool {
    &&& s.kind is Function || s.kind is Method || s.kind is GetMethod
    &&& s.graph == Some(d.graph)
    &&& s.declaration matches Some(path) && node_at(file.text.root, path@) == Some(node)
    &&& d.file == file.id
    &&& d.symbol == Some(s.id)
    &&& d.parameters == parameters_of(file, node)
    &&& d.mutable_parameters.len() == d.parameters.len()
    &&& forall|k: int|
        0 <= k < d.parameters.len() ==> (#[trigger] d.mutable_parameters[k] <==> k < mutability_of(
            file,
            node,
        ).len() && mutability_of(file, node)[k])
    &&& d.captures.len() == 0
}

/// A definition is that of a lambda: its graph, its parameters and its captures.
pub open spec fn defines_lambda(
    file: FileFacts,
    key: SpanKey,
    node: SyntaxNode,
    d: DefinitionView,
) -> bool {
    &&& d.file == file.id
    &&& d.symbol is None
    &&& lambda_graph_from(file.lambdas@, Span { start: key.start, end: key.end }, 0) == Some(
        d.graph,
    )
    &&& d.parameters == parameters_of(file, node)
    &&& d.mutable_parameters == mutability_of(file, node)
    &&& d.captures == captures_in(file, Span { start: key.start, end: key.end })
}

/// A definition under an id is that of a symbol with the id.
pub open spec fn is_of_symbol(
    files: Seq<FileFacts>,
    ids: Map<SymbolRef, Seq<char>>,
    id: Seq<char>,
    d: DefinitionView,
) -> bool {
    exists|at: int, k: int, node: SyntaxNode|
        0 <= at < files.len() && 0 <= k < file_symbols(files[at]).len() && #[trigger] defines_symbol(
            files[at],
            file_symbols(files[at])[k],
            node,
            d,
        ) && ids.contains_key(file_symbols(files[at])[k].id) && ids[file_symbols(
            files[at],
        )[k].id] == id
}

/// A definition under an id is that of a lambda with the id.
pub open spec fn is_of_lambda(
    files: Seq<FileFacts>,
    names: NamesView,
    id: Seq<char>,
    d: DefinitionView,
) -> bool {
    exists|at: int, key: SpanKey, node: SyntaxNode|
        0 <= at < files.len() && #[trigger] defines_lambda(files[at], key, node, d)
            && files[at].id == key.file && node_in(files[at], names.located, key) == Some(node)
            && names.lambda_ids.contains_key(key) && names.lambda_ids[key] == id
}

/// A symbol can be called, and its control flow, its declaration and its id are known.
pub open spec fn can_be_defined(
    file: FileFacts,
    ids: Map<SymbolRef, Seq<char>>,
    s: SymbolFact,
) -> bool {
    &&& s.kind is Function || s.kind is Method || s.kind is GetMethod
    &&& s.graph is Some
    &&& s.declaration matches Some(path) && node_at(file.text.root, path@) is Some
    &&& ids.contains_key(s.id)
}

proof fn lemma_symbols(
    files: Seq<FileFacts>,
    at: int,
    ids: Map<SymbolRef, Seq<char>>,
    i: int,
    acc: Map<Seq<char>, DefinitionView>,
    id: Seq<char>,
)
    requires
        0 <= at < files.len(),
        0 <= i,
        acc.contains_key(id) ==> is_of_symbol(files, ids, id, acc[id]),
    ensures
        ({
            let after = symbol_definitions_from(files[at], ids, file_symbols(files[at]), i, acc);
            &&& acc.contains_key(id) ==> after.contains_key(id)
            &&& after.contains_key(id) ==> is_of_symbol(files, ids, id, after[id])
            &&& forall|k: int|
                i <= k < file_symbols(files[at]).len() && can_be_defined(
                    files[at],
                    ids,
                    #[trigger] file_symbols(files[at])[k],
                ) && ids[file_symbols(files[at])[k].id] == id ==> after.contains_key(id)
        }),
    decreases file_symbols(files[at]).len() - i,
{
    let file = files[at];
    let symbols = file_symbols(file);
    if i < symbols.len() {
        let s = symbols[i];
        let next = if can_be_defined(file, ids, s) {
            let node = node_at(file.text.root, s.declaration->Some_0@)->Some_0;
            let d = symbol_definition(file, s, s.graph->Some_0, node);
            assert(defines_symbol(files[at], file_symbols(files[at])[i], node, d));
            acc.insert(ids[s.id], d)
        } else {
            acc
        };
        assert(symbol_definitions_from(file, ids, symbols, i, acc) == symbol_definitions_from(
            file,
            ids,
            symbols,
            i + 1,
            next,
        ));
        lemma_symbols(files, at, ids, i + 1, next, id);
    }
}

proof fn lemma_files(
    files: Seq<FileFacts>,
    ids: Map<SymbolRef, Seq<char>>,
    i: int,
    acc: Map<Seq<char>, DefinitionView>,
    id: Seq<char>,
)
    requires
        0 <= i,
        acc.contains_key(id) ==> is_of_symbol(files, ids, id, acc[id]),
    ensures
        ({
            let after = file_definitions_from(files, ids, i, acc);
            &&& acc.contains_key(id) ==> after.contains_key(id)
            &&& after.contains_key(id) ==> is_of_symbol(files, ids, id, after[id])
            &&& forall|at: int, k: int|
                i <= at < files.len() && 0 <= k < file_symbols(files[at]).len() && can_be_defined(
                    files[at],
                    ids,
                    #[trigger] file_symbols(files[at])[k],
                ) && ids[file_symbols(files[at])[k].id] == id ==> after.contains_key(id)
        }),
    decreases files.len() - i,
{
    if i < files.len() {
        lemma_symbols(files, i, ids, 0, acc, id);
        let next = symbol_definitions_from(files[i], ids, file_symbols(files[i]), 0, acc);
        lemma_files(files, ids, i + 1, next, id);
    }
}

proof fn lemma_lambdas(
    files: Seq<FileFacts>,
    names: NamesView,
    keys: Seq<SpanKey>,
    i: int,
    acc: Map<Seq<char>, DefinitionView>,
    id: Seq<char>,
)
    requires
        0 <= i,
        forall|k: int|
            0 <= k < keys.len() ==> names.lambda_ids.contains_key(#[trigger] keys[k]),
        acc.contains_key(id) ==> is_of_symbol(files, names.symbol_ids, id, acc[id])
            || is_of_lambda(files, names, id, acc[id]),
    ensures
        ({
            let after = lambda_definitions_from(files, names, keys, i, acc);
            &&& acc.contains_key(id) ==> after.contains_key(id)
            &&& after.contains_key(id) ==> is_of_symbol(files, names.symbol_ids, id, after[id])
                || is_of_lambda(files, names, id, after[id])
            &&& forall|k: int|
                i <= k < keys.len() && names.lambda_ids[#[trigger] keys[k]] == id
                    && has_lambda_flow(files, names, keys[k]) ==> after.contains_key(id)
        }),
    decreases keys.len() - i,
{
    if i < keys.len() {
        let key = keys[i];
        let span = Span { start: key.start, end: key.end };
        assert(names.lambda_ids.contains_key(key));
        let next = if has_lambda_flow(files, names, key) {
            let at = file_from(files, key.file, 0)->Some_0;
            lemma_found_file(files, key.file, 0);
            let node = node_in(files[at], names.located, key)->Some_0;
            let graph = lambda_graph_from(files[at].lambdas@, span, 0)->Some_0;
            let d = lambda_definition(files[at], span, graph, node);
            assert(defines_lambda(files[at], key, node, d));
            acc.insert(names.lambda_ids[key], d)
        } else {
            acc
        };
        assert(lambda_definitions_from(files, names, keys, i, acc) == lambda_definitions_from(
            files,
            names,
            keys,
            i + 1,
            next,
        ));
        lemma_lambdas(files, names, keys, i + 1, next, id);
    }
}

/// The control flow of the lambda at a place is known.
pub open spec fn has_lambda_flow(files: Seq<FileFacts>, names: NamesView, key: SpanKey) -> bool {
    file_from(files, key.file, 0) matches Some(at) && node_in(files[at], names.located, key) is Some
        && lambda_graph_from(
        files[at].lambdas@,
        Span { start: key.start, end: key.end },
        0,
    ) is Some
}

/// Each definition is that of a symbol that can be called, or of a lambda, with its id; and each
/// symbol that can be called, and each lambda, whose control flow is known has a definition.
pub proof fn definitions_are_of_callables(files: Seq<FileFacts>, names: NamesView, id: Seq<char>)
    requires
        names.lambda_ids.dom().finite(),
    ensures
        ({
            let all = project_definitions(files, names);
            &&& all.contains_key(id) ==> is_of_symbol(files, names.symbol_ids, id, all[id])
                || is_of_lambda(files, names, id, all[id])
            &&& forall|at: int, k: int|
                0 <= at < files.len() && 0 <= k < file_symbols(files[at]).len() && can_be_defined(
                    files[at],
                    names.symbol_ids,
                    #[trigger] file_symbols(files[at])[k],
                ) && names.symbol_ids[file_symbols(files[at])[k].id] == id ==> all.contains_key(id)
            &&& forall|key: SpanKey| #[trigger]
                names.lambda_ids.contains_key(key) && names.lambda_ids[key] == id
                    && has_lambda_flow(files, names, key) ==> all.contains_key(id)
        }),
{
    let keys = ascending::<SpanKey>(names.lambda_ids.dom());
    lemma_ascending::<SpanKey>(names.lambda_ids.dom());
    let first = file_definitions_from(files, names.symbol_ids, 0, Map::empty());
    lemma_files(files, names.symbol_ids, 0, Map::empty(), id);
    assert forall|k: int| 0 <= k < keys.len() implies names.lambda_ids.contains_key(
        #[trigger] keys[k],
    ) by {
        assert(keys.to_set().contains(keys[k]));
    }
    lemma_lambdas(files, names, keys, 0, first, id);
    let all = project_definitions(files, names);
    assert forall|key: SpanKey| #[trigger]
        names.lambda_ids.contains_key(key) && names.lambda_ids[key] == id && has_lambda_flow(
            files,
            names,
            key,
        ) implies all.contains_key(id) by {
        assert(keys.to_set().contains(key));
        let k = choose|k: int| 0 <= k < keys.len() && keys[k] == key;
        assert(names.lambda_ids[keys[k]] == id);
    }
}

} // verus!
