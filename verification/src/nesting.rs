//! Laws of contracts, lambdas, and what lies inside them.
use crate::facts::{ContractFact, FieldFact, FileFacts, ProjectFacts};
use crate::ids::{Span, SpanKey, SymbolRef};
use crate::inspect::{built, lambdas_of, names_of, project_forest};
use crate::known::lemma_file_in_order;
use crate::lambdas::{
    holder, holds, inside, lambda_info, lambda_infos_from, lambda_size, owned_by_lambda, place_size,
    shortest_from, LambdaView,
};
use crate::listed::{
    file_lists, lemma_in_sum, lemma_listed, lemma_same_when_global, lies_at, shown_symbols,
};
use crate::model::{AstNodeView, SymbolInfo, SymbolInfoView};
use crate::promises::files_in_order;
use crate::references::{node_holds, node_size, smallest_node};
use crate::sort::{sorting_keeps_items, stable_sorted};
use crate::symbols::{
    contract_fields_from, contract_id, contract_info, contract_infos, full_names_from,
    sorted_symbols,
};
use crate::text::decimal;
use crate::written::lemma_pushed;
use vstd::prelude::*;

verus! {

proof fn lemma_shortest<T>(
    items: Seq<T>,
    fits: spec_fn(T) -> bool,
    size: spec_fn(T) -> int,
    i: int,
    best: Option<int>,
)
    requires
        0 <= i <= items.len(),
        match best {
            Some(b) => 0 <= b < i && fits(items[b]) && forall|k: int|
                0 <= k < i && fits(#[trigger] items[k]) ==> size(items[b]) <= size(items[k]),
            None => forall|k: int| 0 <= k < i ==> !fits(#[trigger] items[k]),
        },
    ensures
        match shortest_from(items, fits, size, i, best) {
            Some(b) => 0 <= b < items.len() && fits(items[b]) && forall|k: int|
                0 <= k < items.len() && fits(#[trigger] items[k]) ==> size(items[b]) <= size(
                    items[k],
                ),
            None => forall|k: int| 0 <= k < items.len() ==> !fits(#[trigger] items[k]),
        },
    decreases items.len() - i,
{
    if i < items.len() {
        let next = if fits(items[i]) && (best matches Some(b) ==> size(items[i]) < size(
            items[b],
        )) {
            Some(i)
        } else {
            best
        };
        lemma_shortest(items, fits, size, i + 1, next);
    }
}

/// What is chosen for a place is the shortest of those that fit, and nothing only where none
/// fits.
pub proof fn the_shortest_is_chosen<T>(
    items: Seq<T>,
    fits: spec_fn(T) -> bool,
    size: spec_fn(T) -> int,
)
    ensures
        match shortest_from(items, fits, size, 0, None) {
            Some(b) => 0 <= b < items.len() && fits(items[b]) && forall|k: int|
                0 <= k < items.len() && fits(#[trigger] items[k]) ==> size(items[b]) <= size(
                    items[k],
                ),
            None => forall|k: int| 0 <= k < items.len() ==> !fits(#[trigger] items[k]),
        },
{
    lemma_shortest(items, fits, size, 0, None);
}

/// A listed symbol is a contract, or a field of one.
pub open spec fn describes_fact(info: SymbolInfoView, file: FileFacts, fact: FieldFact) -> bool {
    &&& info.name == fact.name@
    &&& lies_at(info.declaration, file, fact.name_span)
    &&& info.body matches Some(body) && lies_at(body, file, fact.body_span)
    &&& match info.documentation {
        Some(text) => text == fact.doc@ && fact.doc@.len() > 0,
        None => fact.doc@.len() == 0,
    }
    &&& !info.flags.deprecated && !info.flags.pure && !info.flags.private && !info.flags.mutable
        && !info.flags.local && !info.flags.parameter
}

/// A listed symbol is a contract.
pub open spec fn describes_contract(
    info: SymbolInfoView,
    file: FileFacts,
    contract: ContractFact,
) -> bool {
    &&& describes_fact(info, file, contract.header)
    &&& info.id == "c:"@ + file.text.path@
    &&& info.fqn == contract.header.name@
    &&& info.kind == "contract"@
    &&& info.containing_symbol is None
}

/// A listed symbol is a field of a contract, contained in the contract.
pub open spec fn describes_contract_field(
    info: SymbolInfoView,
    file: FileFacts,
    contract: ContractFact,
    k: int,
) -> bool {
    let fact = contract.fields@[k];
    &&& describes_fact(info, file, fact)
    &&& info.id == "c:"@ + file.text.path@ + ":"@ + decimal(fact.name_span.start as nat)
    &&& info.fqn == contract.header.name@ + "."@ + fact.name@
    &&& info.kind == "contractField"@
    &&& info.containing_symbol == Some("c:"@ + file.text.path@)
}

/// A list holds a contract.
pub open spec fn lists_contract(
    list: Seq<SymbolInfoView>,
    file: FileFacts,
    contract: ContractFact,
) -> bool {
    exists|info: SymbolInfoView| #[trigger]
        list.contains(info) && describes_contract(info, file, contract)
}

/// A list holds a field of a contract.
pub open spec fn lists_contract_field(
    list: Seq<SymbolInfoView>,
    file: FileFacts,
    contract: ContractFact,
    k: int,
) -> bool {
    exists|info: SymbolInfoView| #[trigger]
        list.contains(info) && describes_contract_field(info, file, contract, k)
}

proof fn lemma_fields(
    file: FileFacts,
    name: Seq<char>,
    contract: ContractFact,
    places: Map<SpanKey, Seq<char>>,
    i: int,
    acc: Seq<SymbolInfoView>,
)
    requires
        0 <= i <= contract.fields@.len(),
        name == contract.header.name@,
    ensures
        ({
            let after = contract_fields_from(file, name, contract.fields@, places, i, acc);
            &&& forall|x: SymbolInfoView| #[trigger] acc.contains(x) ==> after.contains(x)
            &&& forall|k: int|
                i <= k < contract.fields@.len() ==> #[trigger] lists_contract_field(
                    after,
                    file,
                    contract,
                    k,
                )
        }),
    decreases contract.fields@.len() - i,
{
    if i < contract.fields@.len() {
        let id = contract_id(file.text.path@);
        let x = contract_info(
            file,
            contract.fields@[i],
            id + ":"@ + decimal(contract.fields@[i].name_span.start as nat),
            name + "."@ + contract.fields@[i].name@,
            "contractField"@,
            Some(id),
            places,
        );
        lemma_pushed(acc, x);
        lemma_fields(file, name, contract, places, i + 1, acc.push(x));
        let after = contract_fields_from(file, name, contract.fields@, places, i, acc);
        assert(acc.push(x).contains(x));
        assert(after.contains(x));
        assert(lists_contract_field(after, file, contract, i));
        assert forall|y: SymbolInfoView| #[trigger] acc.contains(y) implies after.contains(y) by {
            assert(acc.push(x).contains(y));
        }
    }
}

proof fn lemma_contract_infos(
    file: FileFacts,
    contract: ContractFact,
    places: Map<SpanKey, Seq<char>>,
)
    requires
        file.contract == Some(contract),
    ensures
        lists_contract(contract_infos(file, places), file, contract),
        forall|k: int|
            0 <= k < contract.fields@.len() ==> #[trigger] lists_contract_field(
                contract_infos(file, places),
                file,
                contract,
                k,
            ),
{
    let x = contract_info(
        file,
        contract.header,
        contract_id(file.text.path@),
        contract.header.name@,
        "contract"@,
        None,
        places,
    );
    lemma_fields(file, contract.header.name@, contract, places, 0, seq![x]);
    assert(seq![x][0] == x);
    assert(seq![x].contains(x));
    assert(contract_infos(file, places).contains(x));
}

proof fn lemma_infos_are_shown(facts: ProjectFacts, i: int, x: SymbolInfoView)
    requires
        0 <= i < facts.files@.len(),
        contract_infos(facts.files@[i], project_forest(files_in_order(facts)).places).contains(x),
        !x.flags.local,
    ensures
        shown_symbols(facts).contains(x),
{
    let files = files_in_order(facts);
    let at = lemma_file_in_order(facts, i);
    assert(file_lists(
        files[at],
        names_of(files, facts.types@).symbol_ids,
        full_names_from(files, 0, Map::empty()),
        project_forest(files).places,
        x,
    ));
    lemma_listed(facts, at, x);
    lemma_same_when_global(facts, x);
}

proof fn lemma_contract_listed(facts: ProjectFacts, i: int, contract: ContractFact)
    requires
        0 <= i < facts.files@.len(),
        facts.files@[i].contract == Some(contract),
    ensures
        lists_contract(shown_symbols(facts), facts.files@[i], contract),
{
    let file = facts.files@[i];
    let all = contract_infos(file, project_forest(files_in_order(facts)).places);
    lemma_contract_infos(file, contract, project_forest(files_in_order(facts)).places);
    let x = choose|x: SymbolInfoView| #[trigger]
        all.contains(x) && describes_contract(x, file, contract);
    lemma_infos_are_shown(facts, i, x);
}

proof fn lemma_field_listed(facts: ProjectFacts, i: int, contract: ContractFact, k: int)
    requires
        0 <= i < facts.files@.len(),
        facts.files@[i].contract == Some(contract),
        0 <= k < contract.fields@.len(),
    ensures
        lists_contract_field(shown_symbols(facts), facts.files@[i], contract, k),
{
    let file = facts.files@[i];
    let all = contract_infos(file, project_forest(files_in_order(facts)).places);
    lemma_contract_infos(file, contract, project_forest(files_in_order(facts)).places);
    assert(lists_contract_field(all, file, contract, k));
    let x = choose|x: SymbolInfoView| #[trigger]
        all.contains(x) && describes_contract_field(x, file, contract, k);
    lemma_infos_are_shown(facts, i, x);
}

/// The contract of a file is listed as what it is, and each of its fields, contained in it.
pub proof fn contracts_are_listed(facts: ProjectFacts, i: int, contract: ContractFact, k: int)
    requires
        0 <= i < facts.files@.len(),
        facts.files@[i].contract == Some(contract),
        0 <= k < contract.fields@.len(),
    ensures
        built(facts) matches Ok(snapshot) ==> lists_contract(
            snapshot.symbols,
            facts.files@[i],
            contract,
        ) && lists_contract_field(snapshot.symbols, facts.files@[i], contract, k),
{
    lemma_contract_listed(facts, i, contract);
    lemma_field_listed(facts, i, contract, k);
}

/// The id of a lambda.
pub open spec fn id_of_lambda(lambda: LambdaView) -> Seq<char> {
    "lambda:"@ + lambda.path + ":"@ + decimal(lambda.start as nat) + ":"@ + decimal(
        lambda.end as nat,
    )
}

/// A lambda lies inside another one.
pub open spec fn lies_inside(lambda: LambdaView, other: LambdaView) -> bool {
    other.file == lambda.file && other.start < lambda.start && lambda.end < other.end
}

/// What contains a lambda that lies inside another is the shortest such lambda.
pub open spec fn is_contained(info: SymbolInfoView, lambda: LambdaView, all: Seq<LambdaView>) -> bool {
    (exists|k: int| 0 <= k < all.len() && #[trigger] lies_inside(lambda, all[k])) ==> exists|b: int|
        0 <= b < all.len() && #[trigger] lies_inside(lambda, all[b]) && info.containing_symbol
            == Some(id_of_lambda(all[b])) && forall|k: int|
            0 <= k < all.len() && #[trigger] lies_inside(lambda, all[k]) ==> all[b].end
                - all[b].start <= all[k].end - all[k].start
}

/// A list holds a lambda as what it is.
pub open spec fn lists_lambda(
    list: Seq<SymbolInfoView>,
    lambda: LambdaView,
    all: Seq<LambdaView>,
) -> bool {
    exists|info: SymbolInfoView| #[trigger]
        list.contains(info) && info.id == id_of_lambda(lambda) && info.name == "<lambda>"@
            && info.kind == "lambda"@ && info.body == lambda.body && info.documentation is None
            && info.node_id == Some(lambda.node_id) && info.flags.private && info.flags.local
            && !info.flags.deprecated && !info.flags.pure && !info.flags.mutable
            && !info.flags.parameter && is_contained(info, lambda, all)
}

proof fn lemma_contained(all: Seq<LambdaView>, lambda: LambdaView, info: SymbolInfoView)
    requires
        holder(all, lambda) matches Some(at) ==> info.containing_symbol == Some(
            id_of_lambda(all[at]),
        ),
    ensures
        is_contained(info, lambda, all),
{
    the_shortest_is_chosen(all, inside(lambda), lambda_size());
    assert forall|k: int| 0 <= k < all.len() implies (inside(lambda)(#[trigger] all[k])
        <==> lies_inside(lambda, all[k])) by {}
    match holder(all, lambda) {
        Some(b) => {
            assert(lies_inside(lambda, all[b]));
            assert forall|k: int| 0 <= k < all.len() && #[trigger] lies_inside(
                lambda,
                all[k],
            ) implies all[b].end - all[b].start <= all[k].end - all[k].start by {
                assert(inside(lambda)(all[k]));
            }
        },
        None => {},
    }
}

proof fn lemma_infos_keep(
    files: Seq<FileFacts>,
    symbols: Seq<SymbolInfoView>,
    lambdas: Seq<LambdaView>,
    ids: Map<SymbolRef, Seq<char>>,
    i: int,
    acc: Seq<SymbolInfoView>,
    k: int,
    x: SymbolInfoView,
)
    requires
        0 <= i,
    ensures
        acc.contains(x) ==> lambda_infos_from(files, symbols, lambdas, ids, i, acc).contains(x),
        i <= k < lambdas.len() && x == lambda_info(files, symbols, lambdas, ids, lambdas[k])
            ==> lambda_infos_from(files, symbols, lambdas, ids, i, acc).contains(x),
    decreases lambdas.len() - i,
{
    if i < lambdas.len() {
        let own = lambda_info(files, symbols, lambdas, ids, lambdas[i]);
        lemma_pushed(acc, own);
        lemma_infos_keep(files, symbols, lambdas, ids, i + 1, acc.push(own), k, x);
    }
}

proof fn lemma_lambda_listed(facts: ProjectFacts, k: int)
    requires
        0 <= k < lambdas_of(files_in_order(facts)).len(),
    ensures
        lists_lambda(
            shown_symbols(facts),
            lambdas_of(files_in_order(facts))[k],
            lambdas_of(files_in_order(facts)),
        ),
{
    let files = files_in_order(facts);
    let ids = names_of(files, facts.types@).symbol_ids;
    let names = full_names_from(files, 0, Map::empty());
    let places = project_forest(files).places;
    let symbols = sorted_symbols(files, ids, names, places);
    let lambdas = lambdas_of(files);
    let infos = lambda_infos_from(files, symbols, lambdas, ids, 0, Seq::empty());
    let owned = symbols.map_values(|s: SymbolInfoView| owned_by_lambda(infos, s));
    let x = lambda_info(files, symbols, lambdas, ids, lambdas[k]);
    lemma_infos_keep(files, symbols, lambdas, ids, 0, Seq::empty(), k, x);
    lemma_in_sum(owned, infos, x);
    sorting_keeps_items::<SymbolInfo>(owned + infos);
    assert(shown_symbols(facts) == stable_sorted::<SymbolInfo>(owned + infos));
    assert(shown_symbols(facts).contains(x));
    lemma_contained(lambdas, lambdas[k], x);
}

/// Each lambda of a project is listed as what it is, inside the shortest lambda around it.
pub proof fn lambdas_are_listed(facts: ProjectFacts, k: int)
    requires
        0 <= k < lambdas_of(files_in_order(facts)).len(),
    ensures
        built(facts) matches Ok(snapshot) ==> lists_lambda(
            snapshot.symbols,
            lambdas_of(files_in_order(facts))[k],
            lambdas_of(files_in_order(facts)),
        ),
{
    lemma_lambda_listed(facts, k);
}

/// The place of a symbol lies in a lambda.
pub open spec fn lies_in_lambda(symbol: SymbolInfoView, lambda: SymbolInfoView) -> bool {
    let place = symbol.declaration;
    let around = lambda.declaration;
    &&& around.path == place.path
    &&& around.byte_range.start <= place.byte_range.start
    &&& place.byte_range.end <= around.byte_range.end
}

/// A local that lies in a lambda is contained in the shortest such lambda, and named after it.
/// A type parameter, and a symbol that is no local, stays what it was, and so does one that lies
/// in no lambda.
pub proof fn locals_belong_to_their_lambda(
    lambdas: Seq<SymbolInfoView>,
    symbol: SymbolInfoView,
)
    ensures
        ({
            let after = owned_by_lambda(lambdas, symbol);
            let within = exists|k: int|
                0 <= k < lambdas.len() && #[trigger] lies_in_lambda(symbol, lambdas[k]);
            if symbol.flags.local && symbol.kind != "lambda"@ && symbol.kind != "typeParameter"@
                && within {
                exists|b: int|
                    0 <= b < lambdas.len() && #[trigger] lies_in_lambda(symbol, lambdas[b])
                        && after.containing_symbol == Some(lambdas[b].id) && after.fqn
                        == lambdas[b].fqn + "::"@ + symbol.name && after.id == symbol.id
                        && forall|k: int|
                        0 <= k < lambdas.len() && #[trigger] lies_in_lambda(symbol, lambdas[k])
                            ==> place_size()(lambdas[b]) <= place_size()(lambdas[k])
            } else {
                after == symbol
            }
        }),
{
    let fits = holds(symbol.declaration);
    the_shortest_is_chosen(lambdas, fits, place_size());
    assert forall|k: int| 0 <= k < lambdas.len() implies (fits(#[trigger] lambdas[k])
        <==> lies_in_lambda(symbol, lambdas[k])) by {}
    match shortest_from(lambdas, fits, place_size(), 0, None) {
        Some(b) => {
            assert(lies_in_lambda(symbol, lambdas[b]));
            assert forall|k: int| 0 <= k < lambdas.len() && #[trigger] lies_in_lambda(
                symbol,
                lambdas[k],
            ) implies place_size()(lambdas[b]) <= place_size()(lambdas[k]) by {
                assert(fits(lambdas[k]));
            }
        },
        None => {},
    }
}

/// A node lies around a span of a file.
pub open spec fn lies_around(node: AstNodeView, path: Seq<char>, span: Span) -> bool {
    &&& node.location.path == path
    &&& node.location.byte_range.start <= span.start
    &&& span.end <= node.location.byte_range.end
}

/// The node of a span is the shortest around it; a span has none only where no node lies around
/// it.
pub proof fn spans_have_their_closest_node(nodes: Seq<AstNodeView>, path: Seq<char>, span: Span)
    ensures
        match smallest_node(nodes, path, span) {
            Some(id) => exists|b: int|
                0 <= b < nodes.len() && #[trigger] lies_around(nodes[b], path, span)
                    && nodes[b].id == id && forall|k: int|
                    0 <= k < nodes.len() && #[trigger] lies_around(nodes[k], path, span)
                        ==> node_size()(nodes[b]) <= node_size()(nodes[k]),
            None => forall|k: int|
                0 <= k < nodes.len() ==> !#[trigger] lies_around(nodes[k], path, span),
        },
{
    let fits = node_holds(path, span);
    the_shortest_is_chosen(nodes, fits, node_size());
    assert forall|k: int| 0 <= k < nodes.len() implies (fits(#[trigger] nodes[k]) <==> lies_around(
        nodes[k],
        path,
        span,
    )) by {}
    match shortest_from(nodes, fits, node_size(), 0, None) {
        Some(b) => {
            assert(lies_around(nodes[b], path, span));
            assert forall|k: int| 0 <= k < nodes.len() && #[trigger] lies_around(
                nodes[k],
                path,
                span,
            ) implies node_size()(nodes[b]) <= node_size()(nodes[k]) by {
                assert(fits(nodes[k]));
            }
        },
        None => {
            assert forall|k: int| 0 <= k < nodes.len() implies !#[trigger] lies_around(
                nodes[k],
                path,
                span,
            ) by {
                assert(!fits(nodes[k]));
            }
        },
    }
}

} // verus!
