//! Laws of the calls and lambdas that are written in the bodies of callables.
use crate::bodies::{
    bodies_of_files, bodies_of_symbols, project_bodies, with_owned, with_owned_from, BodiesView,
};
use crate::definitions::declaration_of;
use crate::facts::{file_symbols, is_callable, FileFacts, SymbolFact};
use crate::ids::{Span, SpanKey};
use crate::known::{declares, symbols_lie_at_paths};
use crate::program::{LambdaCreation, LambdaCreationView, ProgramCall, ProgramCallView};
use crate::scope::{text_under, NamesView};
use crate::sort::{
    deduped, dropping_repeats_adds_nothing, sorting_keeps_items, stable_sorted, Repeats,
};
use crate::syntax::{
    kinds_go_by_text, lemma_named, named, named_children_are_children, node_at, SyntaxNode,
};
use vstd::prelude::*;

verus! {

/// The node at the end of a path of children that are named in the grammar.
pub open spec fn below(top: SyntaxNode, path: Seq<int>) -> Option<SyntaxNode>
    decreases path.len(),
{
    if path.len() == 0 {
        Some(top)
    } else if 0 <= path[0] < top.children@.len() && top.children@[path[0]].named {
        below(top.children@[path[0]], path.drop_first())
    } else {
        None
    }
}

/// The place of a node in a file.
pub open spec fn spot(file: u32, node: SyntaxNode) -> SpanKey {
    SpanKey { file, start: node.start, end: node.end }
}

/// Every lambda above the end of a path has an id.
pub open spec fn lambdas_known(
    file: u32,
    ids: Map<SpanKey, Seq<char>>,
    top: SyntaxNode,
    path: Seq<int>,
) -> bool {
    forall|k: int|
        0 <= k < path.len() ==> (#[trigger] below(top, path.take(k)) matches Some(node) ==> (
        node.kind@ == "lambda_expression"@ ==> ids.contains_key(spot(file, node))))
}

/// To whom the end of a path belongs: to the innermost lambda above it, or else to `owner`.
pub open spec fn owner_at(
    file: u32,
    owner: Seq<char>,
    ids: Map<SpanKey, Seq<char>>,
    top: SyntaxNode,
    path: Seq<int>,
) -> Seq<char>
    decreases path.len(),
{
    if path.len() == 0 {
        owner
    } else {
        let holder = path.drop_last();
        match below(top, holder) {
            Some(node) => if node.kind@ == "lambda_expression"@ {
                ids[spot(file, node)]
            } else {
                owner_at(file, owner, ids, top, holder)
            },
            None => owner,
        }
    }
}

/// To whom the end of a path belongs, seen from the first step of the path.
proof fn lemma_owner_step(
    file: u32,
    owner: Seq<char>,
    ids: Map<SpanKey, Seq<char>>,
    top: SyntaxNode,
    path: Seq<int>,
)
    requires
        path.len() > 0,
        below(top, path) is Some,
    ensures
        owner_at(file, owner, ids, top, path) == owner_at(
            file,
            if top.kind@ == "lambda_expression"@ {
                ids[spot(file, top)]
            } else {
                owner
            },
            ids,
            top.children@[path[0]],
            path.drop_first(),
        ),
    decreases path.len(),
{
    let holder = path.drop_last();
    let child = top.children@[path[0]];
    if path.len() > 1 {
        lemma_below_take(top, path, path.len() - 1);
        assert(path.take(path.len() - 1) =~= holder);
        lemma_owner_step(file, owner, ids, top, holder);
        assert(path.drop_first().drop_last() =~= holder.drop_first());
        assert(below(top, holder) == below(child, holder.drop_first()));
    } else {
        assert(holder =~= Seq::empty());
        assert(path.drop_first() =~= Seq::empty());
        assert(below(top, holder) == Some(top));
        assert(owner_at(file, owner, ids, top, holder) == owner);
    }
}

proof fn lemma_below_take(top: SyntaxNode, path: Seq<int>, k: int)
    requires
        below(top, path) is Some,
        0 <= k <= path.len(),
    ensures
        below(top, path.take(k)) is Some,
    decreases k,
{
    if k > 0 {
        let child = top.children@[path[0]];
        lemma_below_take(child, path.drop_first(), k - 1);
        assert(path.take(k).drop_first() =~= path.drop_first().take(k - 1));
    }
}

proof fn lemma_lambdas_step(
    file: u32,
    ids: Map<SpanKey, Seq<char>>,
    top: SyntaxNode,
    path: Seq<int>,
)
    requires
        path.len() > 0,
        below(top, path) is Some,
        lambdas_known(file, ids, top, path),
    ensures
        top.kind@ == "lambda_expression"@ ==> ids.contains_key(spot(file, top)),
        lambdas_known(file, ids, top.children@[path[0]], path.drop_first()),
{
    let child = top.children@[path[0]];
    let rest = path.drop_first();
    assert(path.take(0) =~= Seq::empty());
    assert(below(top, path.take(0)) == Some(top));
    assert forall|k: int| 0 <= k < rest.len() implies (#[trigger] below(
        child,
        rest.take(k),
    ) matches Some(node) ==> (node.kind@ == "lambda_expression"@ ==> ids.contains_key(
        spot(file, node),
    ))) by {
        assert(path.take(k + 1).drop_first() =~= rest.take(k));
        assert(below(top, path.take(k + 1)) == below(child, rest.take(k)));
    }
}

/// Bodies that hold at least what others hold.
spec fn holds_all(after: BodiesView, before: BodiesView) -> bool {
    &&& forall|c: ProgramCallView| before.calls.contains(c) ==> #[trigger] after.calls.contains(c)
    &&& forall|c: LambdaCreationView|
        before.creations.contains(c) ==> #[trigger] after.creations.contains(c)
}

pub proof fn lemma_pushed<A>(list: Seq<A>, x: A)
    ensures
        list.push(x).contains(x),
        forall|y: A| list.contains(y) ==> #[trigger] list.push(x).contains(y),
        forall|y: A| #[trigger] list.push(x).contains(y) ==> list.contains(y) || y == x,
{
    let longer = list.push(x);
    assert(longer[list.len() as int] == x);
    assert forall|y: A| list.contains(y) implies #[trigger] longer.contains(y) by {
        let i = choose|i: int| 0 <= i < list.len() && list[i] == y;
        assert(longer[i] == y);
    }
    assert forall|y: A| #[trigger] longer.contains(y) implies list.contains(y) || y == x by {
        let i = choose|i: int| 0 <= i < longer.len() && longer[i] == y;
        if i < list.len() {
            assert(list[i] == y);
        }
    }
}

proof fn lemma_owned_keeps(
    file: u32,
    owner: Seq<char>,
    ids: Map<SpanKey, Seq<char>>,
    node: SyntaxNode,
    acc: BodiesView,
)
    ensures
        holds_all(with_owned(file, owner, ids, node, acc), acc),
    decreases node, named(node).len() + 1,
{
    let span = Span { start: node.start, end: node.end };
    let call = ProgramCallView { file, caller: owner, span };
    lemma_pushed(acc.calls, call);
    lemma_owned_from_keeps(file, owner, ids, node, 0, acc);
    lemma_owned_from_keeps(
        file,
        owner,
        ids,
        node,
        0,
        BodiesView { calls: acc.calls.push(call), ..acc },
    );
    if ids.contains_key(spot(file, node)) {
        let lambda = ids[spot(file, node)];
        let creation = LambdaCreationView { file, owner, lambda, span };
        lemma_pushed(acc.creations, creation);
        lemma_owned_from_keeps(
            file,
            lambda,
            ids,
            node,
            0,
            BodiesView { creations: acc.creations.push(creation), ..acc },
        );
    }
}

proof fn lemma_owned_from_keeps(
    file: u32,
    owner: Seq<char>,
    ids: Map<SpanKey, Seq<char>>,
    node: SyntaxNode,
    i: int,
    acc: BodiesView,
)
    ensures
        holds_all(with_owned_from(file, owner, ids, node, i, acc), acc),
    decreases node, named(node).len() - i,
{
    if 0 <= i < named(node).len() {
        lemma_named(node, i);
        let next = with_owned(file, owner, ids, named(node)[i], acc);
        lemma_owned_keeps(file, owner, ids, named(node)[i], acc);
        lemma_owned_from_keeps(file, owner, ids, node, i + 1, next);
    }
}

/// A named child stands in the list of named children.
proof fn lemma_child_is_named(node: SyntaxNode, k: int) -> (i: int)
    requires
        0 <= k < node.children@.len(),
        node.children@[k].named,
    ensures
        0 <= i < named(node).len(),
        named(node)[i] == node.children@[k],
{
    let keep = |c: SyntaxNode| c.named;
    node.children@.lemma_filter_contains(keep, k);
    let list = named(node);
    assert(list.contains(node.children@[k]));
    choose|i: int| 0 <= i < list.len() && list[i] == node.children@[k]
}

/// The end of a path is found in the list of named children of the node above it.
proof fn lemma_reaches(
    file: u32,
    owner: Seq<char>,
    ids: Map<SpanKey, Seq<char>>,
    node: SyntaxNode,
    from: int,
    i: int,
    path: Seq<int>,
    acc: BodiesView,
)
    requires
        0 <= from <= i < named(node).len(),
        below(named(node)[i], path) is Some,
        lambdas_known(file, ids, named(node)[i], path),
    ensures
        is_collected(
            file,
            owner_at(file, owner, ids, named(node)[i], path),
            ids,
            below(named(node)[i], path)->Some_0,
            with_owned_from(file, owner, ids, node, from, acc),
        ),
    decreases node, 1int, i - from,
{
    lemma_named(node, from);
    let next = with_owned(file, owner, ids, named(node)[from], acc);
    if from < i {
        lemma_reaches(file, owner, ids, node, from + 1, i, path, next);
    } else {
        lemma_named(node, i);
        calls_are_collected(file, owner, ids, named(node)[i], path, acc);
        lemma_owned_from_keeps(file, owner, ids, node, from + 1, next);
    }
}

/// Bodies hold a call or a lambda, where a node is one.
pub open spec fn is_collected(
    file: u32,
    owner: Seq<char>,
    ids: Map<SpanKey, Seq<char>>,
    node: SyntaxNode,
    bodies: BodiesView,
) -> bool {
    let span = Span { start: node.start, end: node.end };
    &&& node.kind@ == "function_call"@ ==> bodies.calls.contains(
        ProgramCallView { file, caller: owner, span },
    )
    &&& node.kind@ == "lambda_expression"@ && ids.contains_key(spot(file, node))
        ==> bodies.creations.contains(
        LambdaCreationView { file, owner, lambda: ids[spot(file, node)], span },
    )
}

/// Every call and every lambda at the end of a path of named children is collected, whatever
/// stands on the path. It belongs to the innermost lambda above it, or else to the owner of the
/// whole.
pub proof fn calls_are_collected(
    file: u32,
    owner: Seq<char>,
    ids: Map<SpanKey, Seq<char>>,
    top: SyntaxNode,
    path: Seq<int>,
    acc: BodiesView,
)
    requires
        below(top, path) is Some,
        lambdas_known(file, ids, top, path),
    ensures
        is_collected(
            file,
            owner_at(file, owner, ids, top, path),
            ids,
            below(top, path)->Some_0,
            with_owned(file, owner, ids, top, acc),
        ),
    decreases top, 2int, 0int,
{
    kinds_go_by_text(top.kind@);
    let span = Span { start: top.start, end: top.end };
    let after = with_owned(file, owner, ids, top, acc);
    let (inner, start) = if top.kind@ == "lambda_expression"@ {
        let lambda = ids[spot(file, top)];
        (
            lambda,
            BodiesView {
                creations: acc.creations.push(LambdaCreationView { file, owner, lambda, span }),
                ..acc
            },
        )
    } else if top.kind@ == "function_call"@ {
        (
            owner,
            BodiesView {
                calls: acc.calls.push(ProgramCallView { file, caller: owner, span }),
                ..acc
            },
        )
    } else {
        (owner, acc)
    };
    lemma_pushed(acc.calls, ProgramCallView { file, caller: owner, span });
    if ids.contains_key(spot(file, top)) {
        lemma_pushed(
            acc.creations,
            LambdaCreationView { file, owner, lambda: ids[spot(file, top)], span },
        );
    }
    if path.len() == 0 {
        lemma_owned_from_keeps(file, inner, ids, top, 0, start);
    } else {
        lemma_lambdas_step(file, ids, top, path);
        lemma_owner_step(file, owner, ids, top, path);
        let i = lemma_child_is_named(top, path[0]);
        assert(after == with_owned_from(file, inner, ids, top, 0, start));
        lemma_reaches(file, inner, ids, top, 0, i, path.drop_first(), start);
    }
}

/// A call stems from a node at the end of a path.
pub open spec fn stems_below(
    file: u32,
    owner: Seq<char>,
    ids: Map<SpanKey, Seq<char>>,
    top: SyntaxNode,
    path: Seq<int>,
    call: ProgramCallView,
) -> bool {
    below(top, path) matches Some(node) && {
        &&& node.kind@ == "function_call"@
        &&& call.file == file
        &&& call.span == (Span { start: node.start, end: node.end })
        &&& call.caller == owner_at(file, owner, ids, top, path)
    }
}

proof fn lemma_stems_step(
    file: u32,
    owner: Seq<char>,
    ids: Map<SpanKey, Seq<char>>,
    top: SyntaxNode,
    k: int,
    path: Seq<int>,
    call: ProgramCallView,
)
    requires
        0 <= k < top.children@.len(),
        top.children@[k].named,
        stems_below(
            file,
            if top.kind@ == "lambda_expression"@ {
                ids[spot(file, top)]
            } else {
                owner
            },
            ids,
            top.children@[k],
            path,
            call,
        ),
    ensures
        stems_below(file, owner, ids, top, seq![k] + path, call),
{
    let whole = seq![k] + path;
    assert(whole.drop_first() =~= path);
    lemma_owner_step(file, owner, ids, top, whole);
}

/// Every call that is collected stands at the end of a path, and belongs to the innermost lambda
/// above it, or else to the owner of the whole: no call is invented.
pub proof fn collected_calls_are_written(
    file: u32,
    owner: Seq<char>,
    ids: Map<SpanKey, Seq<char>>,
    top: SyntaxNode,
    acc: BodiesView,
    call: ProgramCallView,
)
    requires
        with_owned(file, owner, ids, top, acc).calls.contains(call),
        !acc.calls.contains(call),
    ensures
        exists|path: Seq<int>| #[trigger] stems_below(file, owner, ids, top, path, call),
    decreases top, named(top).len() + 1,
{
    kinds_go_by_text(top.kind@);
    let span = Span { start: top.start, end: top.end };
    let own = ProgramCallView { file, caller: owner, span };
    lemma_pushed(acc.calls, own);
    if top.kind@ == "lambda_expression"@ {
        if ids.contains_key(spot(file, top)) {
            let lambda = ids[spot(file, top)];
            let start = BodiesView {
                creations: acc.creations.push(LambdaCreationView { file, owner, lambda, span }),
                ..acc
            };
            lemma_written_from(file, owner, lambda, ids, top, 0, start, call);
        }
    } else if top.kind@ == "function_call"@ {
        let start = BodiesView { calls: acc.calls.push(own), ..acc };
        if call == own {
            assert(stems_below(file, owner, ids, top, Seq::empty(), call));
        } else {
            lemma_written_from(file, owner, owner, ids, top, 0, start, call);
        }
    } else {
        lemma_written_from(file, owner, owner, ids, top, 0, acc, call);
    }
}

proof fn lemma_written_from(
    file: u32,
    owner: Seq<char>,
    inner: Seq<char>,
    ids: Map<SpanKey, Seq<char>>,
    top: SyntaxNode,
    i: int,
    acc: BodiesView,
    call: ProgramCallView,
)
    requires
        0 <= i,
        inner == (if top.kind@ == "lambda_expression"@ {
            ids[spot(file, top)]
        } else {
            owner
        }),
        with_owned_from(file, inner, ids, top, i, acc).calls.contains(call),
        !acc.calls.contains(call),
    ensures
        exists|path: Seq<int>| #[trigger] stems_below(file, owner, ids, top, path, call),
    decreases top, named(top).len() - i,
{
    if i < named(top).len() {
        lemma_named(top, i);
        let next = with_owned(file, inner, ids, named(top)[i], acc);
        if next.calls.contains(call) {
            collected_calls_are_written(file, inner, ids, named(top)[i], acc, call);
            let path = choose|path: Seq<int>| #[trigger]
                stems_below(file, inner, ids, named(top)[i], path, call);
            named_children_are_children(top, named(top)[i]);
            assert(named(top).contains(named(top)[i]));
            let k = choose|k: int|
                0 <= k < top.children@.len() && top.children@[k] == named(top)[i];
            lemma_stems_step(file, owner, ids, top, k, path, call);
        } else {
            lemma_written_from(file, owner, inner, ids, top, i + 1, next, call);
        }
    }
}

/// A symbol that is called: a function, a method or a get-method.
pub open spec fn can_be_called(symbol: SymbolFact) -> bool {
    symbol.kind is Function || symbol.kind is Method || symbol.kind is GetMethod
}

/// The node that declares a callable symbol of a file, and the id of the symbol.
pub open spec fn is_body(
    file: FileFacts,
    names: NamesView,
    symbol: SymbolFact,
    top: SyntaxNode,
    id: Seq<char>,
) -> bool {
    &&& declares(file, symbol)
    &&& can_be_called(symbol)
    &&& symbol.declaration matches Some(path) && node_at(file.text.root, path@) == Some(top)
    &&& names.symbol_ids.contains_key(symbol.id)
    &&& names.symbol_ids[symbol.id] == id
}

proof fn lemma_symbols_keep(
    file: FileFacts,
    names: NamesView,
    symbols: Seq<SymbolFact>,
    i: int,
    acc: BodiesView,
)
    ensures
        holds_all(bodies_of_symbols(file, names, symbols, i, acc), acc),
    decreases symbols.len() - i,
{
    if 0 <= i < symbols.len() {
        let symbol = symbols[i];
        let next = match (declaration_of(file, symbol), text_under(names.symbol_ids, symbol.id)) {
            (Some(node), Some(id)) => if is_callable(symbol) {
                lemma_owned_keeps(file.id, id, names.lambda_ids, node, acc);
                with_owned(file.id, id, names.lambda_ids, node, acc)
            } else {
                acc
            },
            _ => acc,
        };
        lemma_symbols_keep(file, names, symbols, i + 1, next);
    }
}

proof fn lemma_symbol_collected(
    file: FileFacts,
    names: NamesView,
    symbols: Seq<SymbolFact>,
    i: int,
    acc: BodiesView,
    k: int,
    top: SyntaxNode,
    id: Seq<char>,
    path: Seq<int>,
)
    requires
        0 <= i <= k < symbols.len(),
        is_body(file, names, symbols[k], top, id),
        below(top, path) is Some,
        lambdas_known(file.id, names.lambda_ids, top, path),
    ensures
        is_collected(
            file.id,
            owner_at(file.id, id, names.lambda_ids, top, path),
            names.lambda_ids,
            below(top, path)->Some_0,
            bodies_of_symbols(file, names, symbols, i, acc),
        ),
    decreases k - i,
{
    let symbol = symbols[i];
    let next = match (declaration_of(file, symbol), text_under(names.symbol_ids, symbol.id)) {
        (Some(node), Some(own)) => if is_callable(symbol) {
            with_owned(file.id, own, names.lambda_ids, node, acc)
        } else {
            acc
        },
        _ => acc,
    };
    if i < k {
        lemma_symbol_collected(file, names, symbols, i + 1, next, k, top, id, path);
    } else {
        calls_are_collected(file.id, id, names.lambda_ids, top, path, acc);
        lemma_symbols_keep(file, names, symbols, i + 1, next);
    }
}

proof fn lemma_files_keep(files: Seq<FileFacts>, names: NamesView, i: int, acc: BodiesView)
    ensures
        holds_all(bodies_of_files(files, names, i, acc), acc),
    decreases files.len() - i,
{
    if 0 <= i < files.len() {
        let next = bodies_of_symbols(files[i], names, file_symbols(files[i]), 0, acc);
        lemma_symbols_keep(files[i], names, file_symbols(files[i]), 0, acc);
        lemma_files_keep(files, names, i + 1, next);
    }
}

proof fn lemma_file_collected(
    files: Seq<FileFacts>,
    names: NamesView,
    i: int,
    acc: BodiesView,
    at: int,
    k: int,
    top: SyntaxNode,
    id: Seq<char>,
    path: Seq<int>,
)
    requires
        0 <= i <= at < files.len(),
        0 <= k < file_symbols(files[at]).len(),
        is_body(files[at], names, file_symbols(files[at])[k], top, id),
        below(top, path) is Some,
        lambdas_known(files[at].id, names.lambda_ids, top, path),
    ensures
        is_collected(
            files[at].id,
            owner_at(files[at].id, id, names.lambda_ids, top, path),
            names.lambda_ids,
            below(top, path)->Some_0,
            bodies_of_files(files, names, i, acc),
        ),
    decreases at - i,
{
    let next = bodies_of_symbols(files[i], names, file_symbols(files[i]), 0, acc);
    if i < at {
        lemma_file_collected(files, names, i + 1, next, at, k, top, id, path);
    } else {
        lemma_symbol_collected(
            files[at],
            names,
            file_symbols(files[at]),
            0,
            acc,
            k,
            top,
            id,
            path,
        );
        lemma_files_keep(files, names, i + 1, next);
    }
}

/// Of items that repeat each other one is kept.
pub proof fn lemma_one_is_kept<T: Repeats>(list: Seq<T::V>, x: T::V)
    requires
        list.contains(x),
    ensures
        exists|y: T::V|
            #![trigger deduped::<T>(list).contains(y)]
            deduped::<T>(list).contains(y) && (y == x || T::repeats(y, x)),
    decreases list.len(),
{
    let front = list.drop_last();
    let rest = deduped::<T>(front);
    let out = deduped::<T>(list);
    let k = choose|k: int| 0 <= k < list.len() && list[k] == x;
    if k < front.len() {
        assert(front[k] == x);
        lemma_one_is_kept::<T>(front, x);
        let y = choose|y: T::V|
            #![trigger deduped::<T>(front).contains(y)]
            deduped::<T>(front).contains(y) && (y == x || T::repeats(y, x));
        let j = choose|j: int| 0 <= j < rest.len() && rest[j] == y;
        assert(out[j] == y);
        assert(out.contains(y));
    } else if rest.len() > 0 && T::repeats(rest.last(), list.last()) {
        assert(out[rest.len() - 1] == rest.last());
        assert(out.contains(rest.last()));
    } else {
        assert(out[rest.len() as int] == x);
        assert(out.contains(x));
    }
}

/// A project knows every call and every lambda that is written in the body of one of its
/// functions, methods and get-methods, whatever it stands in. A call belongs to the innermost
/// lambda above it, or else to the callable.
pub proof fn written_calls_are_known(
    files: Seq<FileFacts>,
    names: NamesView,
    at: int,
    symbol: SymbolFact,
    top: SyntaxNode,
    id: Seq<char>,
    path: Seq<int>,
)
    requires
        0 <= at < files.len(),
        is_body(files[at], names, symbol, top, id),
        below(top, path) is Some,
        lambdas_known(files[at].id, names.lambda_ids, top, path),
    ensures
        ({
            let node = below(top, path)->Some_0;
            let owner = owner_at(files[at].id, id, names.lambda_ids, top, path);
            let span = Span { start: node.start, end: node.end };
            &&& node.kind@ == "function_call"@ ==> project_bodies(files, names).calls.contains(
                ProgramCallView { file: files[at].id, caller: owner, span },
            )
            &&& node.kind@ == "lambda_expression"@ && names.lambda_ids.contains_key(
                spot(files[at].id, node),
            ) ==> exists|c: LambdaCreationView| #[trigger]
                project_bodies(files, names).creations.contains(c) && c.owner == owner && c.lambda
                    == names.lambda_ids[spot(files[at].id, node)] && c.span == span
        }),
{
    let start = BodiesView { calls: Seq::empty(), creations: Seq::empty() };
    let found = bodies_of_files(files, names, 0, start);
    let node = below(top, path)->Some_0;
    let owner = owner_at(files[at].id, id, names.lambda_ids, top, path);
    let span = Span { start: node.start, end: node.end };
    symbols_lie_at_paths(files[at], symbol);
    let k = choose|k: int|
        0 <= k < file_symbols(files[at]).len() && file_symbols(files[at])[k] == symbol;
    lemma_file_collected(files, names, 0, start, at, k, top, id, path);
    sorting_keeps_items::<ProgramCall>(found.calls);
    sorting_keeps_items::<LambdaCreation>(found.creations);
    if node.kind@ == "function_call"@ {
        let call = ProgramCallView { file: files[at].id, caller: owner, span };
        assert(stable_sorted::<ProgramCall>(found.calls).contains(call));
        lemma_one_is_kept::<ProgramCall>(stable_sorted::<ProgramCall>(found.calls), call);
    }
    if node.kind@ == "lambda_expression"@ && names.lambda_ids.contains_key(
        spot(files[at].id, node),
    ) {
        let lambda = names.lambda_ids[spot(files[at].id, node)];
        let made = LambdaCreationView { file: files[at].id, owner, lambda, span };
        assert(stable_sorted::<LambdaCreation>(found.creations).contains(made));
        lemma_one_is_kept::<LambdaCreation>(
            stable_sorted::<LambdaCreation>(found.creations),
            made,
        );
        let all = project_bodies(files, names).creations;
        let kept = choose|c: LambdaCreationView| #[trigger]
            all.contains(c) && (c == made || LambdaCreation::repeats(c, made));
        assert(all.contains(kept) && kept.owner == owner && kept.lambda == lambda && kept.span
            == span);
    }
}

/// A call stems from the body of a callable of a file.
pub open spec fn stems_from_body(
    files: Seq<FileFacts>,
    names: NamesView,
    call: ProgramCallView,
    at: int,
    symbol: SymbolFact,
    path: Seq<int>,
) -> bool {
    0 <= at < files.len() && (symbol.declaration matches Some(place) && (node_at(
        files[at].text.root,
        place@,
    ) matches Some(top) && is_body(
        files[at],
        names,
        symbol,
        top,
        names.symbol_ids[symbol.id],
    ) && stems_below(
        files[at].id,
        names.symbol_ids[symbol.id],
        names.lambda_ids,
        top,
        path,
        call,
    )))
}

proof fn lemma_symbols_written(
    files: Seq<FileFacts>,
    at: int,
    names: NamesView,
    symbols: Seq<SymbolFact>,
    i: int,
    acc: BodiesView,
    call: ProgramCallView,
)
    requires
        0 <= at < files.len(),
        symbols == file_symbols(files[at]),
        0 <= i,
        bodies_of_symbols(files[at], names, symbols, i, acc).calls.contains(call),
        !acc.calls.contains(call),
    ensures
        exists|j: int, s: SymbolFact, path: Seq<int>| #[trigger]
            stems_from_body(files, names, call, j, s, path),
    decreases symbols.len() - i,
{
    if i < symbols.len() {
        let file = files[at];
        let symbol = symbols[i];
        let next = match (declaration_of(file, symbol), text_under(names.symbol_ids, symbol.id)) {
            (Some(node), Some(id)) => if is_callable(symbol) {
                with_owned(file.id, id, names.lambda_ids, node, acc)
            } else {
                acc
            },
            _ => acc,
        };
        if next.calls.contains(call) {
            let node = declaration_of(file, symbol)->Some_0;
            let id = names.symbol_ids[symbol.id];
            collected_calls_are_written(file.id, id, names.lambda_ids, node, acc, call);
            let path = choose|path: Seq<int>| #[trigger]
                stems_below(file.id, id, names.lambda_ids, node, path, call);
            assert(symbols.contains(symbol));
            symbols_lie_at_paths(file, symbol);
            assert(stems_from_body(files, names, call, at, symbol, path));
        } else {
            lemma_symbols_written(files, at, names, symbols, i + 1, next, call);
        }
    }
}

proof fn lemma_files_written(
    files: Seq<FileFacts>,
    names: NamesView,
    i: int,
    acc: BodiesView,
    call: ProgramCallView,
)
    requires
        0 <= i,
        bodies_of_files(files, names, i, acc).calls.contains(call),
        !acc.calls.contains(call),
    ensures
        exists|j: int, s: SymbolFact, path: Seq<int>| #[trigger]
            stems_from_body(files, names, call, j, s, path),
    decreases files.len() - i,
{
    if i < files.len() {
        let symbols = file_symbols(files[i]);
        let next = bodies_of_symbols(files[i], names, symbols, 0, acc);
        if next.calls.contains(call) {
            lemma_symbols_written(files, i, names, symbols, 0, acc, call);
        } else {
            lemma_files_written(files, names, i + 1, next, call);
        }
    }
}

/// Every call that a project knows is written in the body of one of its callables.
pub proof fn known_calls_are_written(
    files: Seq<FileFacts>,
    names: NamesView,
    call: ProgramCallView,
)
    requires
        project_bodies(files, names).calls.contains(call),
    ensures
        exists|j: int, s: SymbolFact, path: Seq<int>| #[trigger]
            stems_from_body(files, names, call, j, s, path),
{
    let start = BodiesView { calls: Seq::empty(), creations: Seq::empty() };
    let found = bodies_of_files(files, names, 0, start).calls;
    let sorted = stable_sorted::<ProgramCall>(found);
    dropping_repeats_adds_nothing::<ProgramCall>(sorted, call);
    sorting_keeps_items::<ProgramCall>(found);
    assert(found.contains(call));
    lemma_files_written(files, names, 0, start, call);
}

} // verus!
