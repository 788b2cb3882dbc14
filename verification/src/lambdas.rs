//! The lambdas of a project, as symbols of their own.
use crate::facts::{file_from, find_file, FileFacts, LambdaFact};
use crate::ids::{SpanKey, SymbolRef};
use crate::model::{
    copy_text, no_flags, AstNode, AstNodeView, SourceLocation, SourceLocationView, SymbolFlags,
    SymbolInfo, SymbolInfoView,
};
use crate::position::{location, location_of};
use crate::program::entry;
use crate::sort::{sort_stably, stable_sorted};
use crate::symbols::text_of_owner;
use crate::tables::Table;
use crate::text::{decimal, opt_view, push_decimal, same_text, views};
use vstd::prelude::*;
use vstd::string::*;

verus! {

broadcast use crate::text::group_views;

/// A lambda expression of the project.
#[verifier::ext_equal]
pub struct LambdaView {
    pub file: u32,
    pub path: Seq<char>,
    pub start: u32,
    pub end: u32,
    pub node_id: Seq<char>,
    pub body: Option<SourceLocationView>,
}

/// A lambda expression of the project.
#[derive(Debug)]
pub struct Lambda {
    pub file: u32,
    pub path: String,
    pub start: u32,
    pub end: u32,
    pub node_id: String,
    pub body: Option<SourceLocation>,
}

impl View for Lambda {
    type V = LambdaView;

    open spec fn view(&self) -> LambdaView {
        LambdaView {
            file: self.file,
            path: self.path@,
            start: self.start,
            end: self.end,
            node_id: self.node_id@,
            body: opt_view(self.body),
        }
    }
}

/// The first of the shortest fitting items from position `i` on, or `best`.
pub open spec fn shortest_from<T>(
    items: Seq<T>,
    fits: spec_fn(T) -> bool,
    size: spec_fn(T) -> int,
    i: int,
    best: Option<int>,
) -> Option<int>
    decreases items.len() - i,
{
    if 0 <= i < items.len() {
        let next = if fits(items[i]) && (best matches Some(b) ==> size(items[i]) < size(
            items[b],
        )) {
            Some(i)
        } else {
            best
        };
        shortest_from(items, fits, size, i + 1, next)
    } else {
        best
    }
}

/// The first file from position `i` on with a path.
pub open spec fn file_of_path(files: Seq<FileFacts>, path: Seq<char>, i: int) -> Option<u32>
    decreases files.len() - i,
{
    if 0 <= i < files.len() {
        if files[i].text.path@ == path {
            Some(files[i].id)
        } else {
            file_of_path(files, path, i + 1)
        }
    } else {
        None
    }
}

fn find_file_of_path(files: &Vec<FileFacts>, path: &str) -> (r: Option<u32>)
    ensures
        r == file_of_path(files@, path@, 0),
{
    let n: usize = files.len();
    let mut i: usize = 0;
    while i < n
        invariant
            i <= n,
            n == files@.len(),
            file_of_path(files@, path@, 0) == file_of_path(files@, path@, i as int),
        decreases n - i,
    {
        if same_text(files[i].text.path.as_str(), path) {
            return Some(files[i].id);
        }
        i += 1;
    }
    None
}

/// The place of the first node from position `i` on with an id.
pub open spec fn place_of_node(nodes: Seq<AstNodeView>, id: Seq<char>, i: int) -> Option<
    SourceLocationView,
>
    decreases nodes.len() - i,
{
    if 0 <= i < nodes.len() {
        if nodes[i].id == id {
            Some(nodes[i].location)
        } else {
            place_of_node(nodes, id, i + 1)
        }
    } else {
        None
    }
}

fn find_place_of_node(nodes: &Vec<AstNode>, id: &str) -> (r: Option<SourceLocation>)
    ensures
        opt_view(r) == place_of_node(views(nodes@), id@, 0),
{
    let n: usize = nodes.len();
    let mut i: usize = 0;
    while i < n
        invariant
            i <= n,
            n == nodes@.len(),
            place_of_node(views(nodes@), id@, 0) == place_of_node(views(nodes@), id@, i as int),
        decreases n - i,
    {
        if same_text(nodes[i].id.as_str(), id) {
            return Some(nodes[i].location.clone());
        }
        i += 1;
    }
    None
}

/// The place of the body of a lambda.
pub open spec fn body_place(nodes: Seq<AstNodeView>, node: AstNodeView) -> Option<
    SourceLocationView,
> {
    match entry(node.fields, "body"@) {
        Some(ids) => if ids.len() > 0 {
            place_of_node(nodes, ids[0], 0)
        } else {
            None
        },
        None => None,
    }
}

/// The lambdas among the nodes from position `i` on.
pub open spec fn lambdas_from(
    files: Seq<FileFacts>,
    nodes: Seq<AstNodeView>,
    i: int,
    acc: Seq<LambdaView>,
) -> Seq<LambdaView>
    decreases nodes.len() - i,
{
    if 0 <= i < nodes.len() {
        let node = nodes[i];
        let next = if node.raw_kind == "lambda_expression"@ {
            match file_of_path(files, node.location.path, 0) {
                Some(file) => acc.push(
                    LambdaView {
                        file,
                        path: node.location.path,
                        start: node.location.byte_range.start,
                        end: node.location.byte_range.end,
                        node_id: node.id,
                        body: body_place(nodes, node),
                    },
                ),
                None => acc,
            }
        } else {
            acc
        };
        lambdas_from(files, nodes, i + 1, next)
    } else {
        acc
    }
}

/// The lambdas among nodes.
pub fn collect_lambdas(files: &Vec<FileFacts>, nodes: &Vec<AstNode>) -> (r: Vec<Lambda>)
    ensures
        views(r@) == lambdas_from(files@, views(nodes@), 0, Seq::empty()),
{
    let mut out: Vec<Lambda> = Vec::new();
    let n: usize = nodes.len();
    let mut i: usize = 0;
    while i < n
        invariant
            i <= n,
            n == nodes@.len(),
            lambdas_from(files@, views(nodes@), 0, Seq::empty()) == lambdas_from(
                files@,
                views(nodes@),
                i as int,
                views(out@),
            ),
        decreases n - i,
    {
        let node = &nodes[i];
        assert(views(nodes@)[i as int] == node@);
        if same_text(node.raw_kind.as_str(), "lambda_expression") {
            match find_file_of_path(files, node.location.path.as_str()) {
                Some(file) => {
                    let body = match node.fields.get(&"body".to_owned()) {
                        Some(ids) => {
                            assert(node@.fields["body"@] == views(ids@));
                            if ids.len() > 0 {
                                find_place_of_node(nodes, ids[0].as_str())
                            } else {
                                None
                            }
                        },
                        None => None,
                    };
                    let lambda = Lambda {
                        file,
                        path: node.location.path.clone(),
                        start: node.location.byte_range.start,
                        end: node.location.byte_range.end,
                        node_id: node.id.clone(),
                        body,
                    };
                    out.push(lambda);
                },
                None => {},
            }
        }
        i += 1;
    }
    out
}

/// The id of a lambda.
pub open spec fn lambda_id(path: Seq<char>, start: u32, end: u32) -> Seq<char> {
    "lambda:"@ + path + ":"@ + decimal(start as nat) + ":"@ + decimal(end as nat)
}

impl Lambda {
    /// The id of the lambda.
    pub fn id(&self) -> (r: String)
        ensures
            r@ == lambda_id(self.path@, self.start, self.end),
    {
        let mut out = "lambda:".to_owned();
        out.append(self.path.as_str());
        out.append(":");
        push_decimal(&mut out, self.start as u64);
        out.append(":");
        push_decimal(&mut out, self.end as u64);
        out
    }
}

/// The ids of lambdas from position `i` on.
pub open spec fn lambda_ids_from(
    lambdas: Seq<LambdaView>,
    i: int,
    acc: Map<SpanKey, Seq<char>>,
) -> Map<SpanKey, Seq<char>>
    decreases lambdas.len() - i,
{
    if 0 <= i < lambdas.len() {
        let lambda = lambdas[i];
        lambda_ids_from(
            lambdas,
            i + 1,
            acc.insert(
                SpanKey { file: lambda.file, start: lambda.start, end: lambda.end },
                lambda_id(lambda.path, lambda.start, lambda.end),
            ),
        )
    } else {
        acc
    }
}

/// The ids of lambdas by their place.
pub fn collect_lambda_ids(lambdas: &Vec<Lambda>) -> (r: Table<SpanKey, String>)
    ensures
        r@ == lambda_ids_from(views(lambdas@), 0, Map::empty()),
{
    let mut out: Table<SpanKey, String> = Table::new();
    let n: usize = lambdas.len();
    let mut i: usize = 0;
    while i < n
        invariant
            i <= n,
            n == lambdas@.len(),
            lambda_ids_from(views(lambdas@), 0, Map::empty()) == lambda_ids_from(
                views(lambdas@),
                i as int,
                out@,
            ),
        decreases n - i,
    {
        let lambda = &lambdas[i];
        out.insert(
            SpanKey { file: lambda.file, start: lambda.start, end: lambda.end },
            lambda.id(),
        );
        i += 1;
    }
    out
}

/// The first lambda of a file from position `i` on at a place.
pub open spec fn fact_from(lambdas: Seq<LambdaFact>, start: u32, end: u32, i: int) -> Option<
    SymbolRef,
>
    decreases lambdas.len() - i,
{
    if 0 <= i < lambdas.len() {
        if lambdas[i].span.start == start && lambdas[i].span.end == end {
            lambdas[i].owner
        } else {
            fact_from(lambdas, start, end, i + 1)
        }
    } else {
        None
    }
}

/// The declared symbol in which a lambda stands.
pub open spec fn global_owner(
    files: Seq<FileFacts>,
    lambda: LambdaView,
    ids: Map<SymbolRef, Seq<char>>,
) -> Option<Seq<char>> {
    match file_from(files, lambda.file, 0) {
        Some(at) => text_of_owner(
            ids,
            fact_from(files[at].lambdas@, lambda.start, lambda.end, 0),
        ),
        None => None,
    }
}

fn find_global_owner(files: &Vec<FileFacts>, lambda: &Lambda, ids: &Table<SymbolRef, String>) -> (r:
    Option<String>)
    ensures
        opt_view(r) == global_owner(files@, lambda@, ids@),
{
    let at: usize = match find_file(files, lambda.file) {
        Some(at) => at,
        None => {
            return None;
        },
    };
    let facts = &files[at].lambdas;
    let n: usize = facts.len();
    let mut i: usize = 0;
    while i < n
        invariant
            i <= n,
            n == facts@.len(),
            global_owner(files@, lambda@, ids@) == text_of_owner(
                ids@,
                fact_from(facts@, lambda.start, lambda.end, i as int),
            ),
        decreases n - i,
    {
        if facts[i].span.start == lambda.start && facts[i].span.end == lambda.end {
            return match facts[i].owner {
                Some(symbol) => match ids.get(&symbol) {
                    Some(id) => Some(id.clone()),
                    None => None,
                },
                None => None,
            };
        }
        i += 1;
    }
    None
}

/// One lambda stands inside another.
pub open spec fn inside(lambda: LambdaView) -> spec_fn(LambdaView) -> bool {
    |other: LambdaView|
        other.file == lambda.file && other.start < lambda.start && other.end > lambda.end
}

/// The length of a lambda.
pub open spec fn lambda_size() -> spec_fn(LambdaView) -> int {
    |lambda: LambdaView| lambda.end - lambda.start
}

/// The lambda that holds a lambda most closely.
pub open spec fn holder(lambdas: Seq<LambdaView>, lambda: LambdaView) -> Option<int> {
    shortest_from(lambdas, inside(lambda), lambda_size(), 0, None)
}

fn find_holder(lambdas: &Vec<Lambda>, lambda: &Lambda) -> (r: Option<usize>)
    ensures
        match r {
            Some(i) => i < lambdas@.len() && holder(views(lambdas@), lambda@) == Some(i as int),
            None => holder(views(lambdas@), lambda@) is None,
        },
{
    let ghost all = views(lambdas@);
    let n: usize = lambdas.len();
    let mut best: Option<usize> = None;
    let mut i: usize = 0;
    while i < n
        invariant
            i <= n,
            n == lambdas@.len(),
            all == views(lambdas@),
            best matches Some(b) ==> b < n,
            holder(all, lambda@) == shortest_from(
                all,
                inside(lambda@),
                lambda_size(),
                i as int,
                match best {
                    Some(b) => Some(b as int),
                    None => None,
                },
            ),
        decreases n - i,
    {
        let other = &lambdas[i];
        assert(all[i as int] == other@);
        if other.file == lambda.file && other.start < lambda.start && other.end > lambda.end {
            let better = match best {
                Some(b) => {
                    assert(all[b as int] == lambdas@[b as int]@);
                    (other.end as i64) - (other.start as i64) < (lambdas[b].end as i64) - (
                    lambdas[b].start as i64)
                },
                None => true,
            };
            if better {
                best = Some(i);
            }
        }
        i += 1;
    }
    best
}

/// The full name of the first symbol from position `i` on with an id.
pub open spec fn name_of_symbol(symbols: Seq<SymbolInfoView>, id: Seq<char>, i: int) -> Option<
    Seq<char>,
>
    decreases symbols.len() - i,
{
    if 0 <= i < symbols.len() {
        if symbols[i].id == id {
            Some(symbols[i].fqn)
        } else {
            name_of_symbol(symbols, id, i + 1)
        }
    } else {
        None
    }
}

fn find_name_of_symbol(symbols: &Vec<SymbolInfo>, id: &str) -> (r: Option<String>)
    ensures
        opt_view(r) == name_of_symbol(views(symbols@), id@, 0),
{
    let n: usize = symbols.len();
    let mut i: usize = 0;
    while i < n
        invariant
            i <= n,
            n == symbols@.len(),
            name_of_symbol(views(symbols@), id@, 0) == name_of_symbol(
                views(symbols@),
                id@,
                i as int,
            ),
        decreases n - i,
    {
        if same_text(symbols[i].id.as_str(), id) {
            return Some(symbols[i].fqn.clone());
        }
        i += 1;
    }
    None
}

/// The place of a lambda.
pub open spec fn lambda_place(files: Seq<FileFacts>, lambda: LambdaView) -> SourceLocationView {
    match file_from(files, lambda.file, 0) {
        Some(at) => location_of(
            files[at].text.path@,
            files[at].text.source@,
            lambda.start as int,
            lambda.end as int,
        ),
        None => location_of(lambda.path, ""@, lambda.start as int, lambda.end as int),
    }
}

/// The flags of a lambda.
pub open spec fn lambda_flags() -> SymbolFlags {
    SymbolFlags { private: true, local: true, ..no_flags() }
}

/// A lambda as a symbol.
pub open spec fn lambda_info(
    files: Seq<FileFacts>,
    symbols: Seq<SymbolInfoView>,
    lambdas: Seq<LambdaView>,
    ids: Map<SymbolRef, Seq<char>>,
    lambda: LambdaView,
) -> SymbolInfoView {
    let owner = global_owner(files, lambda, ids);
    let owner_name = match owner {
        Some(id) => match name_of_symbol(symbols, id, 0) {
            Some(name) => name,
            None => "<unknown>"@,
        },
        None => "<unknown>"@,
    };
    let place = lambda_place(files, lambda);
    SymbolInfoView {
        id: lambda_id(lambda.path, lambda.start, lambda.end),
        name: "<lambda>"@,
        fqn: owner_name + "::<lambda@"@ + decimal((place.range.start.line + 1) as nat) + ":"@
            + decimal((place.range.start.character + 1) as nat) + ">"@,
        kind: "lambda"@,
        declaration: place,
        body: lambda.body,
        containing_symbol: match holder(lambdas, lambda) {
            Some(at) => Some(
                lambda_id(lambdas[at].path, lambdas[at].start, lambdas[at].end),
            ),
            None => owner,
        },
        documentation: None,
        flags: lambda_flags(),
        node_id: Some(lambda.node_id),
    }
}

fn make_lambda_info(
    files: &Vec<FileFacts>,
    symbols: &Vec<SymbolInfo>,
    lambdas: &Vec<Lambda>,
    ids: &Table<SymbolRef, String>,
    lambda: &Lambda,
) -> (r: SymbolInfo)
    ensures
        r@ == lambda_info(files@, views(symbols@), views(lambdas@), ids@, lambda@),
{
    let owner = find_global_owner(files, lambda, ids);
    let owner_name = match &owner {
        Some(id) => match find_name_of_symbol(symbols, id.as_str()) {
            Some(name) => name,
            None => "<unknown>".to_owned(),
        },
        None => "<unknown>".to_owned(),
    };
    let place = match find_file(files, lambda.file) {
        Some(at) => location(
            files[at].text.path.as_str(),
            files[at].text.source.as_str(),
            lambda.start as usize,
            lambda.end as usize,
        ),
        None => location(lambda.path.as_str(), "", lambda.start as usize, lambda.end as usize),
    };
    let mut fqn = owner_name;
    fqn.append("::<lambda@");
    push_decimal(&mut fqn, place.range.start.line as u64 + 1);
    fqn.append(":");
    push_decimal(&mut fqn, place.range.start.character as u64 + 1);
    fqn.append(">");
    let containing_symbol = match find_holder(lambdas, lambda) {
        Some(at) => {
            assert(views(lambdas@)[at as int] == lambdas@[at as int]@);
            Some(lambdas[at].id())
        },
        None => owner,
    };
    let body = match &lambda.body {
        Some(body) => Some(body.clone()),
        None => None,
    };
    SymbolInfo {
        id: lambda.id(),
        name: "<lambda>".to_owned(),
        fqn,
        kind: "lambda".to_owned(),
        declaration: place,
        body,
        containing_symbol,
        documentation: None,
        flags: SymbolFlags { private: true, local: true, ..SymbolFlags::default() },
        node_id: Some(lambda.node_id.clone()),
    }
}

/// The lambdas from position `i` on as symbols.
pub open spec fn lambda_infos_from(
    files: Seq<FileFacts>,
    symbols: Seq<SymbolInfoView>,
    lambdas: Seq<LambdaView>,
    ids: Map<SymbolRef, Seq<char>>,
    i: int,
    acc: Seq<SymbolInfoView>,
) -> Seq<SymbolInfoView>
    decreases lambdas.len() - i,
{
    if 0 <= i < lambdas.len() {
        lambda_infos_from(
            files,
            symbols,
            lambdas,
            ids,
            i + 1,
            acc.push(lambda_info(files, symbols, lambdas, ids, lambdas[i])),
        )
    } else {
        acc
    }
}

/// A symbol that a lambda may own: a local other than a type parameter.
pub open spec fn is_owned(symbol: SymbolInfoView) -> bool {
    symbol.flags.local && symbol.kind != "lambda"@ && symbol.kind != "typeParameter"@
}

/// The lambda holds a place.
pub open spec fn holds(place: SourceLocationView) -> spec_fn(SymbolInfoView) -> bool {
    |lambda: SymbolInfoView|
        lambda.declaration.path == place.path && lambda.declaration.byte_range.start
            <= place.byte_range.start && lambda.declaration.byte_range.end >= place.byte_range.end
}

/// The length of the place of a symbol.
pub open spec fn place_size() -> spec_fn(SymbolInfoView) -> int {
    |symbol: SymbolInfoView|
        symbol.declaration.byte_range.end - symbol.declaration.byte_range.start
}

/// A local with the lambda that holds it most closely as its owner.
pub open spec fn owned_by_lambda(lambdas: Seq<SymbolInfoView>, symbol: SymbolInfoView) -> SymbolInfoView {
    if is_owned(symbol) {
        match shortest_from(lambdas, holds(symbol.declaration), place_size(), 0, None) {
            Some(at) => SymbolInfoView {
                containing_symbol: Some(lambdas[at].id),
                fqn: lambdas[at].fqn + "::"@ + symbol.name,
                ..symbol
            },
            None => symbol,
        }
    } else {
        symbol
    }
}

fn find_closest(lambdas: &Vec<SymbolInfo>, place: &SourceLocation) -> (r: Option<usize>)
    ensures
        match r {
            Some(i) => i < lambdas@.len() && shortest_from(
                views(lambdas@),
                holds(place@),
                place_size(),
                0,
                None,
            ) == Some(i as int),
            None => shortest_from(views(lambdas@), holds(place@), place_size(), 0, None) is None,
        },
{
    let ghost all = views(lambdas@);
    let n: usize = lambdas.len();
    let mut best: Option<usize> = None;
    let mut i: usize = 0;
    while i < n
        invariant
            i <= n,
            n == lambdas@.len(),
            all == views(lambdas@),
            best matches Some(b) ==> b < n,
            shortest_from(all, holds(place@), place_size(), 0, None) == shortest_from(
                all,
                holds(place@),
                place_size(),
                i as int,
                match best {
                    Some(b) => Some(b as int),
                    None => None,
                },
            ),
        decreases n - i,
    {
        let at = &lambdas[i].declaration;
        assert(all[i as int] == lambdas@[i as int]@);
        if same_text(at.path.as_str(), place.path.as_str()) && at.byte_range.start
            <= place.byte_range.start && at.byte_range.end >= place.byte_range.end {
            let better = match best {
                Some(b) => {
                    assert(all[b as int] == lambdas@[b as int]@);
                    let other = lambdas[b].declaration.byte_range;
                    (at.byte_range.end as i64) - (at.byte_range.start as i64) < (
                    other.end as i64) - (other.start as i64)
                },
                None => true,
            };
            if better {
                best = Some(i);
            }
        }
        i += 1;
    }
    best
}

/// The symbols of a project with its lambdas, in the order of their ids.
pub open spec fn symbols_with_lambdas(
    files: Seq<FileFacts>,
    symbols: Seq<SymbolInfoView>,
    lambdas: Seq<LambdaView>,
    ids: Map<SymbolRef, Seq<char>>,
) -> Seq<SymbolInfoView> {
    let infos = lambda_infos_from(files, symbols, lambdas, ids, 0, Seq::empty());
    let owned = symbols.map_values(|s: SymbolInfoView| owned_by_lambda(infos, s));
    stable_sorted::<SymbolInfo>(owned + infos)
}

/// Adds the lambdas to the symbols of a project.
pub fn collect_lambda_symbols(
    files: &Vec<FileFacts>,
    symbols: Vec<SymbolInfo>,
    lambdas: &Vec<Lambda>,
    ids: &Table<SymbolRef, String>,
) -> (r: Vec<SymbolInfo>)
    ensures
        views(r@) == symbols_with_lambdas(files@, views(symbols@), views(lambdas@), ids@),
{
    let ghost start = views(symbols@);
    let mut infos: Vec<SymbolInfo> = Vec::new();
    let n: usize = lambdas.len();
    let mut i: usize = 0;
    while i < n
        invariant
            i <= n,
            n == lambdas@.len(),
            start == views(symbols@),
            lambda_infos_from(files@, start, views(lambdas@), ids@, 0, Seq::empty())
                == lambda_infos_from(
                files@,
                start,
                views(lambdas@),
                ids@,
                i as int,
                views(infos@),
            ),
        decreases n - i,
    {
        infos.push(make_lambda_info(files, &symbols, lambdas, ids, &lambdas[i]));
        i += 1;
    }
    let ghost owners = views(infos@);
    let ghost owned = start.map_values(|s: SymbolInfoView| owned_by_lambda(owners, s));
    let mut all = symbols;
    let m: usize = all.len();
    let mut j: usize = 0;
    while j < m
        invariant
            j <= m,
            m == all@.len(),
            m == start.len(),
            owners == views(infos@),
            owned == start.map_values(|s: SymbolInfoView| owned_by_lambda(owners, s)),
            forall|k: int| 0 <= k < j ==> (#[trigger] all@[k])@ == owned[k],
            forall|k: int| j <= k < m ==> (#[trigger] all@[k])@ == start[k],
        decreases m - j,
    {
        let symbol = &all[j];
        assert(symbol@ == start[j as int]);
        let mut change: Option<usize> = None;
        if symbol.flags.local && !same_text(symbol.kind.as_str(), "lambda") && !same_text(
            symbol.kind.as_str(),
            "typeParameter",
        ) {
            change = find_closest(&infos, &symbol.declaration);
        }
        match change {
            Some(at) => {
                assert(owners[at as int] == infos@[at as int]@);
                let mut fqn = infos[at].fqn.clone();
                fqn.append("::");
                fqn.append(symbol.name.as_str());
                let new = SymbolInfo {
                    id: symbol.id.clone(),
                    name: symbol.name.clone(),
                    fqn,
                    kind: symbol.kind.clone(),
                    declaration: symbol.declaration.clone(),
                    body: match &symbol.body {
                        Some(body) => Some(body.clone()),
                        None => None,
                    },
                    containing_symbol: Some(infos[at].id.clone()),
                    documentation: copy_text(&symbol.documentation),
                    flags: symbol.flags,
                    node_id: copy_text(&symbol.node_id),
                };
                assert(new@ =~= owned[j as int]);
                all.set(j, new);
            },
            None => {
                assert(symbol@ == owned[j as int]);
            },
        }
        j += 1;
    }
    assert(views(all@) =~= owned);
    all.append(&mut infos);
    sort_stably(all)
}

} // verus!
