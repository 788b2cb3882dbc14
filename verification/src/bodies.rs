//! The calls in the bodies of callables, and the lambdas that they create.
use crate::definitions::{declaration_of, find_declaration};
use crate::facts::{
    all_global_symbols, file_from, file_symbols, is_callable, lemma_own_file, symbol_pointees,
    FileFacts, SymbolFact,
};
use crate::ids::{Span, SpanKey};
use crate::order::{key_before, keyed_before, lemma_key_weak_order, parts, Keyed, Part, PartView};
use crate::program::{LambdaCreation, LambdaCreationView, ProgramCall, ProgramCallView};
use crate::scope::{place, text_under, Names, NamesView};
use crate::sort::{
    deduped, drop_repeats, dropping_repeats_adds_nothing, sort_stably, sorting_keeps_items,
    stable_sorted, Ranked, Repeats,
};
use crate::syntax::{kind_of, lemma_named, named, NodeKind, SyntaxNode};
use crate::tables::Table;
use crate::text::{same_text, views};
use vstd::prelude::*;
use vstd::string::*;

verus! {

broadcast use crate::text::group_views;

/// The calls and lambdas of bodies.
#[verifier::ext_equal]
pub struct BodiesView {
    pub calls: Seq<ProgramCallView>,
    pub creations: Seq<LambdaCreationView>,
}

/// The calls and lambdas of bodies.
#[derive(Debug)]
pub struct Bodies {
    pub calls: Vec<ProgramCall>,
    pub creations: Vec<LambdaCreation>,
}

impl View for Bodies {
    type V = BodiesView;

    open spec fn view(&self) -> BodiesView {
        BodiesView { calls: views(self.calls@), creations: views(self.creations@) }
    }
}

/// With the calls and lambdas under a node that belongs to `owner`. What stands inside a lambda
/// belongs to the lambda.
pub open spec fn with_owned(
    file: u32,
    owner: Seq<char>,
    lambda_ids: Map<SpanKey, Seq<char>>,
    node: SyntaxNode,
    acc: BodiesView,
) -> BodiesView
    decreases node, named(node).len() + 1,
{
    let span = Span { start: node.start, end: node.end };
    match kind_of(node.kind@) {
        NodeKind::Lambda => match text_under(lambda_ids, place(file, node)) {
            Some(lambda) => with_owned_from(
                file,
                lambda,
                lambda_ids,
                node,
                0,
                BodiesView {
                    creations: acc.creations.push(
                        LambdaCreationView { file, owner, lambda, span },
                    ),
                    ..acc
                },
            ),
            None => acc,
        },
        NodeKind::Call => with_owned_from(
            file,
            owner,
            lambda_ids,
            node,
            0,
            BodiesView { calls: acc.calls.push(ProgramCallView { file, caller: owner, span }), ..acc
            },
        ),
        _ => with_owned_from(file, owner, lambda_ids, node, 0, acc),
    }
}

/// With the calls and lambdas under the named children of a node from position `i` on.
pub open spec fn with_owned_from(
    file: u32,
    owner: Seq<char>,
    lambda_ids: Map<SpanKey, Seq<char>>,
    node: SyntaxNode,
    i: int,
    acc: BodiesView,
) -> BodiesView
    decreases node, named(node).len() - i,
{
    if 0 <= i < named(node).len() {
        proof {
            lemma_named(node, i);
        }
        with_owned_from(
            file,
            owner,
            lambda_ids,
            node,
            i + 1,
            with_owned(file, owner, lambda_ids, named(node)[i], acc),
        )
    } else {
        acc
    }
}

/// Collects the calls and lambdas under a node that belongs to `owner`.
pub fn collect_owned_call_nodes(
    file: u32,
    owner: &String,
    lambda_ids: &Table<SpanKey, String>,
    node: &SyntaxNode,
    out: &mut Bodies,
)
    ensures
        final(out)@ == with_owned(file, owner@, lambda_ids@, *node, old(out)@),
    decreases node,
{
    let span = Span { start: node.start, end: node.end };
    let ghost first = out@;
    let mut inner = owner;
    match node.node_kind() {
        NodeKind::Lambda => {
            let key = SpanKey { file, start: node.start, end: node.end };
            match lambda_ids.get(&key) {
                Some(lambda) => {
                    out.creations.push(
                        LambdaCreation {
                            file,
                            owner: owner.clone(),
                            lambda: lambda.clone(),
                            span,
                        },
                    );
                    inner = lambda;
                },
                None => {
                    return;
                },
            }
        },
        NodeKind::Call => {
            out.calls.push(ProgramCall { file, caller: owner.clone(), span });
        },
        _ => {},
    }
    let ghost start = out@;
    let children = node.named_children();
    let n: usize = children.len();
    let mut i: usize = 0;
    while i < n
        invariant
            i <= n,
            n == children@.len(),
            n == named(*node).len(),
            forall|j: int| 0 <= j < n ==> *(#[trigger] children@[j]) == named(*node)[j],
            with_owned_from(file, inner@, lambda_ids@, *node, 0, start) == with_owned_from(
                file,
                inner@,
                lambda_ids@,
                *node,
                i as int,
                out@,
            ),
        decreases n - i,
    {
        proof {
            lemma_named(*node, i as int);
        }
        assert(*children@[i as int] == named(*node)[i as int]);
        collect_owned_call_nodes(file, inner, lambda_ids, children[i], out);
        i += 1;
    }
}

/// With the calls and lambdas of the symbols from position `i` on.
pub open spec fn bodies_of_symbols(
    file: FileFacts,
    names: NamesView,
    symbols: Seq<SymbolFact>,
    i: int,
    acc: BodiesView,
) -> BodiesView
    decreases symbols.len() - i,
{
    if 0 <= i < symbols.len() {
        let symbol = symbols[i];
        let next = match (declaration_of(file, symbol), text_under(names.symbol_ids, symbol.id)) {
            (Some(node), Some(id)) => if is_callable(symbol) {
                with_owned(file.id, id, names.lambda_ids, node, acc)
            } else {
                acc
            },
            _ => acc,
        };
        bodies_of_symbols(file, names, symbols, i + 1, next)
    } else {
        acc
    }
}

/// With the calls and lambdas of the files from position `i` on.
pub open spec fn bodies_of_files(
    files: Seq<FileFacts>,
    names: NamesView,
    i: int,
    acc: BodiesView,
) -> BodiesView
    decreases files.len() - i,
{
    if 0 <= i < files.len() {
        bodies_of_files(
            files,
            names,
            i + 1,
            bodies_of_symbols(files[i], names, file_symbols(files[i]), 0, acc),
        )
    } else {
        acc
    }
}

impl Keyed for ProgramCall {
    open spec fn key_view(v: ProgramCallView) -> Seq<PartView> {
        seq![
            PartView::Number(v.file),
            PartView::Number(v.span.start),
            PartView::Number(v.span.end),
            PartView::Text(v.caller),
        ]
    }

    fn key_parts(&self) -> (r: Vec<Part<'_>>) {
        let r = vec![
            Part::Number(self.file),
            Part::Number(self.span.start),
            Part::Number(self.span.end),
            Part::Text(self.caller.as_str()),
        ];
        assert(parts(r@) =~= Self::key_view(self@));
        r
    }
}

impl Ranked for ProgramCall {
    open spec fn before(a: ProgramCallView, b: ProgramCallView) -> bool {
        key_before(Self::key_view(a), Self::key_view(b))
    }

    fn is_before(&self, other: &Self) -> (r: bool) {
        keyed_before(self, other)
    }

    proof fn weak_order(a: ProgramCallView, b: ProgramCallView, c: ProgramCallView) {
        lemma_key_weak_order(Self::key_view(a), Self::key_view(b), Self::key_view(c));
    }
}

impl Repeats for ProgramCall {
    open spec fn repeats(a: ProgramCallView, b: ProgramCallView) -> bool {
        a == b
    }

    fn is_repeated_by(&self, other: &Self) -> (r: bool) {
        self.file == other.file && self.span == other.span && same_text(
            self.caller.as_str(),
            other.caller.as_str(),
        )
    }
}

impl Keyed for LambdaCreation {
    open spec fn key_view(v: LambdaCreationView) -> Seq<PartView> {
        seq![
            PartView::Text(v.owner),
            PartView::Number(v.file),
            PartView::Number(v.span.start),
            PartView::Text(v.lambda),
        ]
    }

    fn key_parts(&self) -> (r: Vec<Part<'_>>) {
        let r = vec![
            Part::Text(self.owner.as_str()),
            Part::Number(self.file),
            Part::Number(self.span.start),
            Part::Text(self.lambda.as_str()),
        ];
        assert(parts(r@) =~= Self::key_view(self@));
        r
    }
}

impl Ranked for LambdaCreation {
    open spec fn before(a: LambdaCreationView, b: LambdaCreationView) -> bool {
        key_before(Self::key_view(a), Self::key_view(b))
    }

    fn is_before(&self, other: &Self) -> (r: bool) {
        keyed_before(self, other)
    }

    proof fn weak_order(a: LambdaCreationView, b: LambdaCreationView, c: LambdaCreationView) {
        lemma_key_weak_order(Self::key_view(a), Self::key_view(b), Self::key_view(c));
    }
}

impl Repeats for LambdaCreation {
    open spec fn repeats(a: LambdaCreationView, b: LambdaCreationView) -> bool {
        a.owner == b.owner && a.lambda == b.lambda && a.span == b.span
    }

    fn is_repeated_by(&self, other: &Self) -> (r: bool) {
        same_text(self.owner.as_str(), other.owner.as_str()) && same_text(
            self.lambda.as_str(),
            other.lambda.as_str(),
        ) && self.span == other.span
    }
}

/// The calls in the bodies of the callables of a project and the lambdas that they create, in
/// order and each once.
pub open spec fn project_bodies(files: Seq<FileFacts>, names: NamesView) -> BodiesView {
    let found = bodies_of_files(
        files,
        names,
        0,
        BodiesView { calls: Seq::empty(), creations: Seq::empty() },
    );
    BodiesView {
        calls: deduped::<ProgramCall>(stable_sorted::<ProgramCall>(found.calls)),
        creations: deduped::<LambdaCreation>(stable_sorted::<LambdaCreation>(found.creations)),
    }
}

/// Each call lies in a file of the project.
pub open spec fn calls_lie_in_files(files: Seq<FileFacts>, calls: Seq<ProgramCallView>) -> bool {
    forall|i: int|
        0 <= i < calls.len() ==> file_from(files, (#[trigger] calls[i]).file, 0) is Some
}

proof fn lemma_owned(
    files: Seq<FileFacts>,
    file: u32,
    owner: Seq<char>,
    lambda_ids: Map<SpanKey, Seq<char>>,
    node: SyntaxNode,
    acc: BodiesView,
)
    requires
        file_from(files, file, 0) is Some,
        calls_lie_in_files(files, acc.calls),
    ensures
        calls_lie_in_files(files, with_owned(file, owner, lambda_ids, node, acc).calls),
    decreases node, named(node).len() + 1,
{
    let span = Span { start: node.start, end: node.end };
    match kind_of(node.kind@) {
        NodeKind::Lambda => match text_under(lambda_ids, place(file, node)) {
            Some(lambda) => {
                let next = BodiesView {
                    creations: acc.creations.push(
                        LambdaCreationView { file, owner, lambda, span },
                    ),
                    ..acc
                };
                lemma_owned_from(files, file, lambda, lambda_ids, node, 0, next);
            },
            None => {},
        },
        NodeKind::Call => {
            let next = BodiesView {
                calls: acc.calls.push(ProgramCallView { file, caller: owner, span }),
                ..acc
            };
            lemma_owned_from(files, file, owner, lambda_ids, node, 0, next);
        },
        _ => {
            lemma_owned_from(files, file, owner, lambda_ids, node, 0, acc);
        },
    }
}

proof fn lemma_owned_from(
    files: Seq<FileFacts>,
    file: u32,
    owner: Seq<char>,
    lambda_ids: Map<SpanKey, Seq<char>>,
    node: SyntaxNode,
    i: int,
    acc: BodiesView,
)
    requires
        file_from(files, file, 0) is Some,
        calls_lie_in_files(files, acc.calls),
    ensures
        calls_lie_in_files(files, with_owned_from(file, owner, lambda_ids, node, i, acc).calls),
    decreases node, named(node).len() - i,
{
    if 0 <= i < named(node).len() {
        lemma_named(node, i);
        lemma_owned(files, file, owner, lambda_ids, named(node)[i], acc);
        lemma_owned_from(
            files,
            file,
            owner,
            lambda_ids,
            node,
            i + 1,
            with_owned(file, owner, lambda_ids, named(node)[i], acc),
        );
    }
}

proof fn lemma_bodies_of_symbols(
    files: Seq<FileFacts>,
    at: int,
    names: NamesView,
    symbols: Seq<SymbolFact>,
    i: int,
    acc: BodiesView,
)
    requires
        0 <= at < files.len(),
        calls_lie_in_files(files, acc.calls),
    ensures
        calls_lie_in_files(files, bodies_of_symbols(files[at], names, symbols, i, acc).calls),
    decreases symbols.len() - i,
{
    if 0 <= i < symbols.len() {
        let symbol = symbols[i];
        let file = files[at];
        lemma_own_file(files, at);
        let next = match (declaration_of(file, symbol), text_under(names.symbol_ids, symbol.id)) {
            (Some(node), Some(id)) => if is_callable(symbol) {
                lemma_owned(files, file.id, id, names.lambda_ids, node, acc);
                with_owned(file.id, id, names.lambda_ids, node, acc)
            } else {
                acc
            },
            _ => acc,
        };
        lemma_bodies_of_symbols(files, at, names, symbols, i + 1, next);
    }
}

proof fn lemma_bodies_of_files(
    files: Seq<FileFacts>,
    names: NamesView,
    i: int,
    acc: BodiesView,
)
    requires
        calls_lie_in_files(files, acc.calls),
    ensures
        calls_lie_in_files(files, bodies_of_files(files, names, i, acc).calls),
    decreases files.len() - i,
{
    if 0 <= i < files.len() {
        lemma_bodies_of_symbols(files, i, names, file_symbols(files[i]), 0, acc);
        lemma_bodies_of_files(
            files,
            names,
            i + 1,
            bodies_of_symbols(files[i], names, file_symbols(files[i]), 0, acc),
        );
    }
}

/// Each call of a project lies in one of its files.
pub proof fn project_calls_lie_in_files(files: Seq<FileFacts>, names: NamesView)
    ensures
        calls_lie_in_files(files, project_bodies(files, names).calls),
{
    let start = BodiesView { calls: Seq::empty(), creations: Seq::empty() };
    let found = bodies_of_files(files, names, 0, start).calls;
    let sorted = stable_sorted::<ProgramCall>(found);
    let kept = deduped::<ProgramCall>(sorted);
    lemma_bodies_of_files(files, names, 0, start);
    assert forall|i: int| 0 <= i < kept.len() implies file_from(
        files,
        (#[trigger] kept[i]).file,
        0,
    ) is Some by {
        let call = kept[i];
        assert(kept.contains(call));
        dropping_repeats_adds_nothing::<ProgramCall>(sorted, call);
        sorting_keeps_items::<ProgramCall>(found);
        assert(found.contains(call));
        let j = choose|j: int| 0 <= j < found.len() && found[j] == call;
        assert(file_from(files, found[j].file, 0) is Some);
    }
}

/// The calls in the bodies of the callables of a project and the lambdas that they create, in
/// order and each once.
pub fn collect_program_calls(files: &Vec<FileFacts>, names: &Names) -> (r: Bodies)
    ensures
        r@ == project_bodies(files@, names@),
{
    let mut out = Bodies { calls: Vec::new(), creations: Vec::new() };
    let ghost first = BodiesView { calls: Seq::empty(), creations: Seq::empty() };
    assert(out@ =~= first);
    let n: usize = files.len();
    let mut i: usize = 0;
    while i < n
        invariant
            i <= n,
            n == files@.len(),
            bodies_of_files(files@, names@, 0, first) == bodies_of_files(
                files@,
                names@,
                i as int,
                out@,
            ),
        decreases n - i,
    {
        let file = &files[i];
        let symbols = all_global_symbols(file);
        let ghost all = symbol_pointees(symbols@);
        let ghost start = out@;
        let m: usize = symbols.len();
        let mut j: usize = 0;
        while j < m
            invariant
                j <= m,
                m == symbols@.len(),
                all == symbol_pointees(symbols@),
                bodies_of_symbols(*file, names@, all, 0, start) == bodies_of_symbols(
                    *file,
                    names@,
                    all,
                    j as int,
                    out@,
                ),
            decreases m - j,
        {
            let symbol = symbols[j];
            assert(all[j as int] == *symbol);
            if symbol.is_callable() {
                match (find_declaration(file, symbol), names.symbol_ids.get(&symbol.id)) {
                    (Some(node), Some(id)) => {
                        collect_owned_call_nodes(file.id, id, &names.lambda_ids, node, &mut out);
                    },
                    _ => {},
                }
            }
            j += 1;
        }
        i += 1;
    }
    Bodies {
        calls: drop_repeats(sort_stably(out.calls)),
        creations: drop_repeats(sort_stably(out.creations)),
    }
}

} // verus!
