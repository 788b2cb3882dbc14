//! What the names of a program stand for, and its callables, from what is known of its files.
use crate::constants::{collect_constant_keys, constant_keys_from};
use crate::facts::{
    all_global_symbols, file_from, file_symbols, find_file, is_callable, lemma_found_file,
    lemma_own_file, symbol_pointees, FileFacts, LocalAt, LocalFact, SymbolFact, SymbolKind,
    TypeFact, UseFact,
};
use crate::flow::FlowGraph;
use crate::graphs::{lambda_cfg, lambda_graph_from};
use crate::ids::{LocalRef, Resolved, Span, SpanKey, SymbolRef};
use crate::lambdas::{collect_lambda_ids, lambda_ids_from, Lambda, LambdaView};
use crate::model::SourceKind;
use crate::node_types::{collection_kinds, kinds_from};
use crate::path::{all_blank, blank, is_blank};
use crate::program::{definition_views, Definition, DefinitionView};
use crate::references::{
    collect_located, index_uses, located_from, resolved_by_place, UseKey, UseKeyView, UseValue,
};
use crate::scope::{path_views, text_under, Names, NamesView};
use crate::symbols::{collect_symbol_ids, symbol_ids_from};
use crate::syntax::{find_node, named, node_at, part, text_of, SyntaxNode};
use crate::tables::{ascending, KeyMap, KeySet, Table};
use crate::text::{chars_of, views};
use vstd::prelude::*;
use vstd::string::*;

verus! {

broadcast use crate::text::group_views;

/// The sets of symbols that the names of a program are sorted into.
#[derive(Debug, Clone, Copy, PartialEq, Eq, Structural)]
pub enum Pick {
    Callable,
    InstanceMethod,
    Library,
}

/// Whether a symbol belongs to a set.
pub open spec fn is_picked(pick: Pick, file: FileFacts, symbol: SymbolFact) -> bool {
    match pick {
        Pick::Callable => is_callable(symbol),
        Pick::InstanceMethod => symbol.kind == (SymbolKind::Method { instance: true }),
        Pick::Library => file.source_kind is Stdlib,
    }
}

/// The set with the symbols from position `i` on that belong to it.
pub open spec fn picked_symbols(
    pick: Pick,
    file: FileFacts,
    symbols: Seq<SymbolFact>,
    i: int,
    acc: Set<SymbolRef>,
) -> Set<SymbolRef>
    decreases symbols.len() - i,
{
    if 0 <= i < symbols.len() {
        let next = if is_picked(pick, file, symbols[i]) {
            acc.insert(symbols[i].id)
        } else {
            acc
        };
        picked_symbols(pick, file, symbols, i + 1, next)
    } else {
        acc
    }
}

/// The set with the symbols of the files from position `i` on that belong to it.
pub open spec fn picked_from(pick: Pick, files: Seq<FileFacts>, i: int, acc: Set<SymbolRef>) -> Set<
    SymbolRef,
>
    decreases files.len() - i,
{
    if 0 <= i < files.len() {
        picked_from(
            pick,
            files,
            i + 1,
            picked_symbols(pick, files[i], file_symbols(files[i]), 0, acc),
        )
    } else {
        acc
    }
}

fn pick_symbols(pick: Pick, files: &Vec<FileFacts>) -> (r: KeySet<SymbolRef>)
    ensures
        r@ == picked_from(pick, files@, 0, Set::empty()),
{
    let mut out: KeySet<SymbolRef> = KeySet::new();
    let n: usize = files.len();
    let mut i: usize = 0;
    while i < n
        invariant
            i <= n,
            n == files@.len(),
            picked_from(pick, files@, 0, Set::empty()) == picked_from(
                pick,
                files@,
                i as int,
                out@,
            ),
        decreases n - i,
    {
        let file = &files[i];
        let symbols = all_global_symbols(file);
        let ghost all = symbol_pointees(symbols@);
        let ghost start = out@;
        let m: usize = symbols.len();
        let mut j: usize = 0;
        while j < m
            invariant
                j <= m,
                m == symbols@.len(),
                all == symbol_pointees(symbols@),
                picked_symbols(pick, *file, all, 0, start) == picked_symbols(
                    pick,
                    *file,
                    all,
                    j as int,
                    out@,
                ),
            decreases m - j,
        {
            let symbol = symbols[j];
            assert(all[j as int] == *symbol);
            let belongs = match pick {
                Pick::Callable => symbol.is_callable(),
                Pick::InstanceMethod => match symbol.kind {
                    SymbolKind::Method { instance } => instance,
                    _ => false,
                },
                Pick::Library => match file.source_kind {
                    SourceKind::Stdlib => true,
                    _ => false,
                },
            };
            if belongs {
                out.insert(symbol.id);
            }
            j += 1;
        }
        i += 1;
    }
    out
}

/// The locals of a file by their places, from position `i` on.
pub open spec fn defined_in(
    file: u32,
    locals: Seq<LocalFact>,
    i: int,
    acc: Map<SpanKey, LocalRef>,
) -> Map<SpanKey, LocalRef>
    decreases locals.len() - i,
{
    if 0 <= i < locals.len() {
        let key = SpanKey { file, start: locals[i].span.start, end: locals[i].span.end };
        defined_in(file, locals, i + 1, acc.insert(key, locals[i].id))
    } else {
        acc
    }
}

/// The locals of the files by their places, from file `i` on.
pub open spec fn defined_from(
    files: Seq<FileFacts>,
    i: int,
    acc: Map<SpanKey, LocalRef>,
) -> Map<SpanKey, LocalRef>
    decreases files.len() - i,
{
    if 0 <= i < files.len() {
        let next = match files[i].resolved {
            Some(resolved) => defined_in(files[i].id, resolved.locals@, 0, acc),
            None => acc,
        };
        defined_from(files, i + 1, next)
    } else {
        acc
    }
}

/// The locals of a project by their places.
pub fn collect_defined(files: &Vec<FileFacts>) -> (r: KeyMap<SpanKey, LocalRef>)
    ensures
        r@ == defined_from(files@, 0, Map::empty()),
{
    let mut out: KeyMap<SpanKey, LocalRef> = KeyMap::new();
    let n: usize = files.len();
    let mut i: usize = 0;
    while i < n
        invariant
            i <= n,
            n == files@.len(),
            defined_from(files@, 0, Map::empty()) == defined_from(files@, i as int, out@),
        decreases n - i,
    {
        let file = &files[i];
        if let Some(resolved) = &file.resolved {
            let ghost before = out@;
            let m: usize = resolved.locals.len();
            let mut j: usize = 0;
            while j < m
                invariant
                    j <= m,
                    m == resolved.locals@.len(),
                    defined_in(file.id, resolved.locals@, 0, before) == defined_in(
                        file.id,
                        resolved.locals@,
                        j as int,
                        out@,
                    ),
                decreases m - j,
            {
                let local = &resolved.locals[j];
                let key = SpanKey { file: file.id, start: local.span.start, end: local.span.end };
                out.insert(key, local.id);
                j += 1;
            }
        }
        i += 1;
    }
    out
}

/// What the names of a project stand for.
pub open spec fn project_names(
    files: Seq<FileFacts>,
    types: Seq<TypeFact>,
    lambdas: Seq<LambdaView>,
    uses: Map<UseKeyView, UseValue>,
) -> NamesView {
    NamesView {
        symbol_ids: symbol_ids_from(files, 0, Map::empty()),
        callables: picked_from(Pick::Callable, files, 0, Set::empty()),
        instance_methods: picked_from(Pick::InstanceMethod, files, 0, Set::empty()),
        library: picked_from(Pick::Library, files, 0, Set::empty()),
        lambda_ids: lambda_ids_from(lambdas, 0, Map::empty()),
        collection_kinds: kinds_from(types, files, 0, Map::empty()),
        constant_keys: constant_keys_from(files, 0, Map::empty()),
        resolved: resolved_by_place(uses),
        located: located_from(files, 0, Map::empty()),
        defined: defined_from(files, 0, Map::empty()),
    }
}

/// What the names of a project stand for.
pub fn collect_names(
    files: &Vec<FileFacts>,
    types: &Vec<TypeFact>,
    lambdas: &Vec<Lambda>,
    uses: &KeyMap<UseKey, UseValue>,
) -> (r: Names)
    ensures
        r@ == project_names(files@, types@, views(lambdas@), uses@),
{
    Names {
        symbol_ids: collect_symbol_ids(files),
        callables: pick_symbols(Pick::Callable, files),
        instance_methods: pick_symbols(Pick::InstanceMethod, files),
        library: pick_symbols(Pick::Library, files),
        lambda_ids: collect_lambda_ids(lambdas),
        collection_kinds: collection_kinds(types, files),
        constant_keys: collect_constant_keys(files),
        resolved: index_uses(uses),
        located: collect_located(files),
        defined: collect_defined(files),
    }
}

/// The local at an offset, from position `i` on.
pub open spec fn local_at_from(list: Seq<LocalAt>, offset: u32, i: int) -> Option<LocalRef>
    decreases list.len() - i,
{
    if 0 <= i < list.len() {
        if list[i].offset == offset {
            Some(list[i].local)
        } else {
            local_at_from(list, offset, i + 1)
        }
    } else {
        None
    }
}

fn find_local_at(list: &Vec<LocalAt>, offset: u32) -> (r: Option<LocalRef>)
    ensures
        r == local_at_from(list@, offset, 0),
{
    let n: usize = list.len();
    let mut i: usize = 0;
    while i < n
        invariant
            i <= n,
            n == list@.len(),
            local_at_from(list@, offset, 0) == local_at_from(list@, offset, i as int),
        decreases n - i,
    {
        if list[i].offset == offset {
            return Some(list[i].local);
        }
        i += 1;
    }
    None
}

/// The locals of the parameters from position `i` on.
pub open spec fn parameter_locals_from(
    file: FileFacts,
    parameters: Seq<SyntaxNode>,
    i: int,
    acc: Seq<LocalRef>,
) -> Seq<LocalRef>
    decreases parameters.len() - i,
{
    if 0 <= i < parameters.len() {
        let next = match part(parameters[i], "name"@) {
            Some(name) => match local_at_from(file.locals_at@, name.start, 0) {
                Some(local) => acc.push(local),
                None => acc,
            },
            None => acc,
        };
        parameter_locals_from(file, parameters, i + 1, next)
    } else {
        acc
    }
}

/// The locals of the parameters of a declaration.
pub open spec fn parameters_of(file: FileFacts, declaration: SyntaxNode) -> Seq<LocalRef> {
    match (file.resolved, part(declaration, "parameters"@)) {
        (Some(_), Some(list)) => parameter_locals_from(file, named(list), 0, Seq::empty()),
        _ => Seq::empty(),
    }
}

/// The locals of the parameters of a declaration.
pub fn callable_parameters(file: &FileFacts, declaration: &SyntaxNode) -> (r: Vec<LocalRef>)
    ensures
        r@ == parameters_of(*file, *declaration),
{
    let mut out: Vec<LocalRef> = Vec::new();
    if file.resolved.is_none() {
        return out;
    }
    match declaration.part("parameters") {
        Some(list) => {
            let parameters = list.named_children();
            let ghost all = named(*list);
            let n: usize = parameters.len();
            let mut i: usize = 0;
            while i < n
                invariant
                    i <= n,
                    n == parameters@.len(),
                    n == all.len(),
                    forall|j: int| 0 <= j < n ==> *(#[trigger] parameters@[j]) == all[j],
                    parameter_locals_from(*file, all, 0, Seq::empty()) == parameter_locals_from(
                        *file,
                        all,
                        i as int,
                        out@,
                    ),
                decreases n - i,
            {
                let parameter = parameters[i];
                assert(*parameter == all[i as int]);
                match parameter.part("name") {
                    Some(name) => match find_local_at(&file.locals_at, name.start) {
                        Some(local) => {
                            out.push(local);
                        },
                        None => {},
                    },
                    None => {},
                }
                i += 1;
            }
        },
        None => {},
    }
    out
}

/// A text that starts with the word `mutate`, after white space.
pub open spec fn starts_with_mutate(text: Seq<char>) -> bool {
    exists|k: int|
        0 <= k && k + 7 <= text.len() && all_blank(text.take(k)) && #[trigger] text.subrange(
            k,
            k + 7,
        ) == "mutate "@
}

fn is_marked_mutate(text: &str) -> (r: bool)
    ensures
        r == starts_with_mutate(text@),
{
    proof {
        reveal_strlit("mutate ");
    }
    let word: [char; 7] = ['m', 'u', 't', 'a', 't', 'e', ' '];
    assert(word@ =~= "mutate "@);
    let chars = chars_of(text);
    let n: usize = chars.len();
    let mut k: usize = 0;
    while k < n && blank(chars[k])
        invariant
            k <= n,
            n == chars@.len(),
            forall|i: int| 0 <= i < k ==> is_blank(#[trigger] chars@[i]),
        decreases n - k,
    {
        k += 1;
    }
    proof {
        assert(all_blank(text@.take(k as int))) by {
            assert forall|i: int| 0 <= i < k implies is_blank(#[trigger] text@.take(k as int)[i]) by {
                assert(text@.take(k as int)[i] == chars@[i]);
            }
        }
        if starts_with_mutate(text@) {
            let j = choose|j: int|
                0 <= j && j + 7 <= text@.len() && all_blank(text@.take(j))
                    && #[trigger] text@.subrange(j, j + 7) == "mutate "@;
            assert(text@.subrange(j, j + 7)[0] == 'm');
            assert(text@[j] == 'm');
            assert(!is_blank('m'));
            if j > k {
                assert(is_blank(text@.take(j)[k as int]));
            }
            assert(j == k);
        }
    }
    if n - k < 7 {
        return false;
    }
    let mut i: usize = 0;
    while i < 7
        invariant
            i <= 7,
            k + 7 <= n,
            n == chars@.len(),
            chars@ == text@,
            word@ == "mutate "@,
            forall|j: int| 0 <= j < i ==> chars@[k + j] == #[trigger] word@[j],
            starts_with_mutate(text@) ==> text@.subrange(k as int, k + 7) == "mutate "@,
        decreases 7 - i,
    {
        if chars[k + i] != word[i] {
            proof {
                if starts_with_mutate(text@) {
                    assert(text@.subrange(k as int, k + 7)[i as int] == text@[k + i]);
                }
            }
            return false;
        }
        i += 1;
    }
    assert(text@.subrange(k as int, k + 7) =~= "mutate "@);
    true
}

/// Whether each parameter of a declaration is mutated in place.
pub open spec fn mutability_of(file: FileFacts, declaration: SyntaxNode) -> Seq<bool> {
    match part(declaration, "parameters"@) {
        Some(list) => named(list).map_values(
            |parameter: SyntaxNode|
                match text_of(file.text.source@, parameter) {
                    Some(text) => starts_with_mutate(text),
                    None => false,
                },
        ),
        None => Seq::empty(),
    }
}

/// Whether each parameter of a declaration is mutated in place.
pub fn callable_parameter_mutability(file: &FileFacts, declaration: &SyntaxNode) -> (r: Vec<bool>)
    ensures
        r@ == mutability_of(*file, *declaration),
{
    let mut out: Vec<bool> = Vec::new();
    match declaration.part("parameters") {
        Some(list) => {
            let parameters = list.named_children();
            let ghost goal = mutability_of(*file, *declaration);
            let n: usize = parameters.len();
            let mut i: usize = 0;
            while i < n
                invariant
                    i <= n,
                    n == parameters@.len(),
                    n == named(*list).len(),
                    part(*declaration, "parameters"@) == Some(*list),
                    goal == mutability_of(*file, *declaration),
                    forall|j: int| 0 <= j < n ==> *(#[trigger] parameters@[j]) == named(*list)[j],
                    out@.len() == i,
                    forall|j: int| 0 <= j < i ==> #[trigger] out@[j] == goal[j],
                decreases n - i,
            {
                let marked = match parameters[i].text(file.text.source.as_str()) {
                    Some(text) => is_marked_mutate(text.as_str()),
                    None => false,
                };
                assert(*parameters@[i as int] == named(*list)[i as int]);
                out.push(marked);
                i += 1;
            }
            assert(out@ =~= goal);
        },
        None => {},
    }
    out
}

/// A list brought to a length; new items are false.
pub open spec fn resized(list: Seq<bool>, n: nat) -> Seq<bool> {
    Seq::new(
        n,
        |i: int|
            if i < list.len() {
                list[i]
            } else {
                false
            },
    )
}

fn resize(list: &Vec<bool>, n: usize) -> (r: Vec<bool>)
    ensures
        r@ == resized(list@, n as nat),
{
    let mut out: Vec<bool> = Vec::new();
    let mut i: usize = 0;
    while i < n
        invariant
            i <= n,
            out@.len() == i,
            forall|j: int| 0 <= j < i ==> #[trigger] out@[j] == resized(list@, n as nat)[j],
        decreases n - i,
    {
        let item = if i < list.len() {
            list[i]
        } else {
            false
        };
        out.push(item);
        i += 1;
    }
    assert(out@ =~= resized(list@, n as nat));
    out
}

/// Where a local is defined, from position `i` on.
pub open spec fn definition_span_from(locals: Seq<LocalFact>, id: LocalRef, i: int) -> Option<Span>
    decreases locals.len() - i,
{
    if 0 <= i < locals.len() {
        if locals[i].id == id {
            Some(locals[i].span)
        } else {
            definition_span_from(locals, id, i + 1)
        }
    } else {
        None
    }
}

fn find_definition_span(locals: &Vec<LocalFact>, id: LocalRef) -> (r: Option<Span>)
    ensures
        r == definition_span_from(locals@, id, 0),
{
    let n: usize = locals.len();
    let mut i: usize = 0;
    while i < n
        invariant
            i <= n,
            n == locals@.len(),
            definition_span_from(locals@, id, 0) == definition_span_from(locals@, id, i as int),
        decreases n - i,
    {
        if locals[i].id == id {
            return Some(locals[i].span);
        }
        i += 1;
    }
    None
}

/// The local that a use inside a lambda captures: one that is defined outside the lambda.
pub open spec fn captured_by(locals: Seq<LocalFact>, usage: UseFact, lambda: Span) -> Option<
    LocalRef,
> {
    match usage.resolved {
        Resolved::Local(local) => if usage.span.start >= lambda.start && usage.span.end
            <= lambda.end {
            match definition_span_from(locals, local, 0) {
                Some(span) => if span.start < lambda.start || span.end > lambda.end {
                    Some(local)
                } else {
                    None
                },
                None => None,
            }
        } else {
            None
        },
        _ => None,
    }
}

/// The locals with those that the uses from position `i` on capture.
pub open spec fn captured_from(
    locals: Seq<LocalFact>,
    uses: Seq<UseFact>,
    lambda: Span,
    i: int,
    acc: Set<LocalRef>,
) -> Set<LocalRef>
    decreases uses.len() - i,
{
    if 0 <= i < uses.len() {
        let next = match captured_by(locals, uses[i], lambda) {
            Some(local) => acc.insert(local),
            None => acc,
        };
        captured_from(locals, uses, lambda, i + 1, next)
    } else {
        acc
    }
}

/// The locals that a lambda captures, in order and each once.
pub open spec fn captures_in(file: FileFacts, lambda: Span) -> Seq<LocalRef> {
    match file.resolved {
        Some(resolved) => ascending::<LocalRef>(
            captured_from(resolved.locals@, resolved.uses@, lambda, 0, Set::empty()),
        ),
        None => Seq::empty(),
    }
}

/// The locals that a lambda captures, in order and each once.
pub fn lambda_captures(file: &FileFacts, lambda: Span) -> (r: Vec<LocalRef>)
    ensures
        r@ == captures_in(*file, lambda),
{
    let mut out: Vec<LocalRef> = Vec::new();
    match &file.resolved {
        Some(resolved) => {
            let mut set: KeySet<LocalRef> = KeySet::new();
            let n: usize = resolved.uses.len();
            let mut i: usize = 0;
            while i < n
                invariant
                    i <= n,
                    n == resolved.uses@.len(),
                    captured_from(resolved.locals@, resolved.uses@, lambda, 0, Set::empty())
                        == captured_from(
                        resolved.locals@,
                        resolved.uses@,
                        lambda,
                        i as int,
                        set@,
                    ),
                decreases n - i,
            {
                let usage = &resolved.uses[i];
                if let Resolved::Local(local) = usage.resolved {
                    if usage.span.start >= lambda.start && usage.span.end <= lambda.end {
                        if let Some(span) = find_definition_span(&resolved.locals, local) {
                            if span.start < lambda.start || span.end > lambda.end {
                                set.insert(local);
                            }
                        }
                    }
                }
                i += 1;
            }
            let m: usize = set.len();
            let mut j: usize = 0;
            while j < m
                invariant
                    j <= m,
                    m == set.sequence().len(),
                    out@.len() == j,
                    forall|k: int| 0 <= k < j ==> #[trigger] out@[k] == set.sequence()[k],
                decreases m - j,
            {
                out.push(*set.at(j));
                j += 1;
            }
            assert(out@ =~= set.sequence());
        },
        None => {},
    }
    out
}

/// The node that declares a symbol.
pub open spec fn declaration_of(file: FileFacts, symbol: SymbolFact) -> Option<SyntaxNode> {
    match symbol.declaration {
        Some(path) => node_at(file.text.root, path@),
        None => None,
    }
}

/// The node that declares a symbol.
pub fn find_declaration<'a>(file: &'a FileFacts, symbol: &SymbolFact) -> (r: Option<&'a SyntaxNode>)
    ensures
        r is Some <==> declaration_of(*file, *symbol) is Some,
        r matches Some(node) ==> declaration_of(*file, *symbol) == Some(*node),
{
    match &symbol.declaration {
        Some(path) => {
            assert(path@.take(path@.len() as int) =~= path@);
            find_node(&file.text.root, path, path.len())
        },
        None => None,
    }
}

/// The definition of a callable symbol.
pub open spec fn symbol_definition(
    file: FileFacts,
    symbol: SymbolFact,
    graph: FlowGraph,
    declaration: SyntaxNode,
) -> DefinitionView {
    let parameters = parameters_of(file, declaration);
    DefinitionView {
        file: file.id,
        symbol: Some(symbol.id),
        graph,
        parameters,
        mutable_parameters: resized(mutability_of(file, declaration), parameters.len()),
        captures: Seq::empty(),
    }
}

/// The definitions with those of the symbols from position `i` on.
pub open spec fn symbol_definitions_from(
    file: FileFacts,
    ids: Map<SymbolRef, Seq<char>>,
    symbols: Seq<SymbolFact>,
    i: int,
    acc: Map<Seq<char>, DefinitionView>,
) -> Map<Seq<char>, DefinitionView>
    decreases symbols.len() - i,
{
    if 0 <= i < symbols.len() {
        let symbol = symbols[i];
        let next = match (
            symbol.graph,
            declaration_of(file, symbol),
            text_under(ids, symbol.id),
        ) {
            (Some(graph), Some(node), Some(id)) => if is_callable(symbol) {
                acc.insert(id, symbol_definition(file, symbol, graph, node))
            } else {
                acc
            },
            _ => acc,
        };
        symbol_definitions_from(file, ids, symbols, i + 1, next)
    } else {
        acc
    }
}

/// The definitions with those of the symbols of the files from position `i` on.
pub open spec fn file_definitions_from(
    files: Seq<FileFacts>,
    ids: Map<SymbolRef, Seq<char>>,
    i: int,
    acc: Map<Seq<char>, DefinitionView>,
) -> Map<Seq<char>, DefinitionView>
    decreases files.len() - i,
{
    if 0 <= i < files.len() {
        file_definitions_from(
            files,
            ids,
            i + 1,
            symbol_definitions_from(files[i], ids, file_symbols(files[i]), 0, acc),
        )
    } else {
        acc
    }
}

/// The node at a place of a file.
pub open spec fn node_in(
    file: FileFacts,
    located: Map<SpanKey, Seq<usize>>,
    key: SpanKey,
) -> Option<SyntaxNode> {
    if located.contains_key(key) {
        node_at(file.text.root, located[key])
    } else {
        None
    }
}

/// The definition of a lambda.
pub open spec fn lambda_definition(
    file: FileFacts,
    span: Span,
    graph: FlowGraph,
    node: SyntaxNode,
) -> DefinitionView {
    DefinitionView {
        file: file.id,
        symbol: None,
        graph,
        parameters: parameters_of(file, node),
        mutable_parameters: mutability_of(file, node),
        captures: captures_in(file, span),
    }
}

/// The definitions with those of the lambdas from position `i` on.
pub open spec fn lambda_definitions_from(
    files: Seq<FileFacts>,
    names: NamesView,
    keys: Seq<SpanKey>,
    i: int,
    acc: Map<Seq<char>, DefinitionView>,
) -> Map<Seq<char>, DefinitionView>
    decreases keys.len() - i,
{
    if 0 <= i < keys.len() {
        let key = keys[i];
        let span = Span { start: key.start, end: key.end };
        let next = match file_from(files, key.file, 0) {
            Some(at) => match (
                node_in(files[at], names.located, key),
                lambda_graph_from(files[at].lambdas@, span, 0),
            ) {
                (Some(node), Some(graph)) => acc.insert(
                    names.lambda_ids[key],
                    lambda_definition(files[at], span, graph, node),
                ),
                _ => acc,
            },
            None => acc,
        };
        lambda_definitions_from(files, names, keys, i + 1, next)
    } else {
        acc
    }
}

/// The callables of a project of which the control flow is known.
pub open spec fn project_definitions(files: Seq<FileFacts>, names: NamesView) -> Map<
    Seq<char>,
    DefinitionView,
> {
    lambda_definitions_from(
        files,
        names,
        ascending::<SpanKey>(names.lambda_ids.dom()),
        0,
        file_definitions_from(files, names.symbol_ids, 0, Map::empty()),
    )
}

/// There are finitely many definitions, and each lies in a file of the project.
pub open spec fn lie_in_files(
    files: Seq<FileFacts>,
    definitions: Map<Seq<char>, DefinitionView>,
) -> bool {
    &&& definitions.dom().finite()
    &&& forall|id: Seq<char>| #[trigger]
        definitions.contains_key(id) ==> file_from(files, definitions[id].file, 0) is Some
}

proof fn lemma_symbol_definitions(
    files: Seq<FileFacts>,
    at: int,
    ids: Map<SymbolRef, Seq<char>>,
    symbols: Seq<SymbolFact>,
    i: int,
    acc: Map<Seq<char>, DefinitionView>,
)
    requires
        0 <= at < files.len(),
        lie_in_files(files, acc),
    ensures
        lie_in_files(files, symbol_definitions_from(files[at], ids, symbols, i, acc)),
    decreases symbols.len() - i,
{
    if 0 <= i < symbols.len() {
        lemma_own_file(files, at);
        let file = files[at];
        let symbol = symbols[i];
        let next = match (
            symbol.graph,
            declaration_of(file, symbol),
            text_under(ids, symbol.id),
        ) {
            (Some(graph), Some(node), Some(id)) => if is_callable(symbol) {
                acc.insert(id, symbol_definition(file, symbol, graph, node))
            } else {
                acc
            },
            _ => acc,
        };
        lemma_symbol_definitions(files, at, ids, symbols, i + 1, next);
    }
}

proof fn lemma_file_definitions(
    files: Seq<FileFacts>,
    ids: Map<SymbolRef, Seq<char>>,
    i: int,
    acc: Map<Seq<char>, DefinitionView>,
)
    requires
        lie_in_files(files, acc),
    ensures
        lie_in_files(files, file_definitions_from(files, ids, i, acc)),
    decreases files.len() - i,
{
    if 0 <= i < files.len() {
        lemma_symbol_definitions(files, i, ids, file_symbols(files[i]), 0, acc);
        lemma_file_definitions(
            files,
            ids,
            i + 1,
            symbol_definitions_from(files[i], ids, file_symbols(files[i]), 0, acc),
        );
    }
}

proof fn lemma_lambda_definitions(
    files: Seq<FileFacts>,
    names: NamesView,
    keys: Seq<SpanKey>,
    i: int,
    acc: Map<Seq<char>, DefinitionView>,
)
    requires
        lie_in_files(files, acc),
    ensures
        lie_in_files(files, lambda_definitions_from(files, names, keys, i, acc)),
    decreases keys.len() - i,
{
    if 0 <= i < keys.len() {
        let key = keys[i];
        let span = Span { start: key.start, end: key.end };
        lemma_found_file(files, key.file, 0);
        let next = match file_from(files, key.file, 0) {
            Some(at) => match (
                node_in(files[at], names.located, key),
                lambda_graph_from(files[at].lambdas@, span, 0),
            ) {
                (Some(node), Some(graph)) => acc.insert(
                    names.lambda_ids[key],
                    lambda_definition(files[at], span, graph, node),
                ),
                _ => acc,
            },
            None => acc,
        };
        lemma_lambda_definitions(files, names, keys, i + 1, next);
    }
}

/// A project has finitely many callables, and each lies in one of its files.
pub proof fn definitions_lie_in_files(files: Seq<FileFacts>, names: NamesView)
    ensures
        lie_in_files(files, project_definitions(files, names)),
{
    lemma_file_definitions(files, names.symbol_ids, 0, Map::empty());
    lemma_lambda_definitions(
        files,
        names,
        ascending::<SpanKey>(names.lambda_ids.dom()),
        0,
        file_definitions_from(files, names.symbol_ids, 0, Map::empty()),
    );
}

fn add_symbol_definitions<'a>(
    file: &'a FileFacts,
    ids: &Table<SymbolRef, String>,
    out: &mut KeyMap<String, Definition<'a>>,
)
    ensures
        definition_views(final(out)@) == symbol_definitions_from(
            *file,
            ids@,
            file_symbols(*file),
            0,
            definition_views(old(out)@),
        ),
{
    let symbols = all_global_symbols(file);
    let ghost all = symbol_pointees(symbols@);
    let ghost start = definition_views(out@);
    let n: usize = symbols.len();
    let mut i: usize = 0;
    while i < n
        invariant
            i <= n,
            n == symbols@.len(),
            all == symbol_pointees(symbols@),
            symbol_definitions_from(*file, ids@, all, 0, start) == symbol_definitions_from(
                *file,
                ids@,
                all,
                i as int,
                definition_views(out@),
            ),
        decreases n - i,
    {
        let symbol = symbols[i];
        assert(all[i as int] == *symbol);
        if symbol.is_callable() {
            match (&symbol.graph, find_declaration(file, symbol), ids.get(&symbol.id)) {
                (Some(graph), Some(node), Some(id)) => {
                    let parameters = callable_parameters(file, node);
                    let mutable = callable_parameter_mutability(file, node);
                    let mutable_parameters = resize(&mutable, parameters.len());
                    let definition = Definition {
                        file: file.id,
                        symbol: Some(symbol.id),
                        graph,
                        parameters,
                        mutable_parameters,
                        captures: Vec::new(),
                    };
                    let ghost before = definition_views(out@);
                    assert(definition@ =~= symbol_definition(*file, *symbol, *graph, *node));
                    out.insert(id.clone(), definition);
                    assert(definition_views(out@) =~= before.insert(id@, definition@));
                },
                _ => {},
            }
        }
        i += 1;
    }
}

fn find_node_in<'a>(
    file: &'a FileFacts,
    located: &KeyMap<SpanKey, Vec<usize>>,
    key: &SpanKey,
) -> (r: Option<&'a SyntaxNode>)
    ensures
        r is Some <==> node_in(*file, path_views(located@), *key) is Some,
        r matches Some(node) ==> node_in(*file, path_views(located@), *key) == Some(*node),
{
    match located.get(key) {
        Some(path) => {
            assert(path@.take(path@.len() as int) =~= path@);
            find_node(&file.text.root, path, path.len())
        },
        None => None,
    }
}

/// The callables of a project of which the control flow is known.
pub fn callable_definitions<'a>(files: &'a Vec<FileFacts>, names: &Names) -> (r: KeyMap<
    String,
    Definition<'a>,
>)
    ensures
        definition_views(r@) == project_definitions(files@, names@),
{
    let mut out: KeyMap<String, Definition<'a>> = KeyMap::new();
    let n: usize = files.len();
    let mut i: usize = 0;
    assert(definition_views(out@) =~= Map::empty());
    while i < n
        invariant
            i <= n,
            n == files@.len(),
            file_definitions_from(files@, names.symbol_ids@, 0, Map::empty())
                == file_definitions_from(
                files@,
                names.symbol_ids@,
                i as int,
                definition_views(out@),
            ),
        decreases n - i,
    {
        add_symbol_definitions(&files[i], &names.symbol_ids, &mut out);
        i += 1;
    }
    let ghost start = definition_views(out@);
    let m: usize = names.lambda_ids.len();
    let ghost keys = names.lambda_ids.sequence();
    let mut j: usize = 0;
    while j < m
        invariant
            j <= m,
            m == keys.len(),
            keys == names.lambda_ids.sequence(),
            lambda_definitions_from(files@, names@, keys, 0, start) == lambda_definitions_from(
                files@,
                names@,
                keys,
                j as int,
                definition_views(out@),
            ),
        decreases m - j,
    {
        let key = names.lambda_ids.key_at(j);
        let id = names.lambda_ids.value_at(j);
        let span = Span { start: key.start, end: key.end };
        if let Some(at) = find_file(files, key.file) {
            let file = &files[at];
            match (find_node_in(file, &names.located, key), lambda_cfg(file, span)) {
                (Some(node), Some(graph)) => {
                    let definition = Definition {
                        file: file.id,
                        symbol: None,
                        graph,
                        parameters: callable_parameters(file, node),
                        mutable_parameters: callable_parameter_mutability(file, node),
                        captures: lambda_captures(file, span),
                    };
                    let ghost before = definition_views(out@);
                    assert(definition@ =~= lambda_definition(*file, span, *graph, *node));
                    out.insert(id.clone(), definition);
                    assert(definition_views(out@) =~= before.insert(id@, definition@));
                },
                _ => {},
            }
        }
        j += 1;
    }
    out
}

} // verus!
