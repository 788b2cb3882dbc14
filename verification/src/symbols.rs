//! The symbols of a project.
use crate::facts::{
    all_global_symbols, file_symbols, lemma_nested, nested, symbol_pointees, FieldFact, FileFacts,
    LocalFact, LocalKind, SymbolFact, SymbolKind,
};
use crate::ids::{LocalRef, Span, SpanKey, SymbolRef};
use crate::model::{
    no_flags, SourceLocation, SourceLocationView, SymbolFlags, SymbolInfo, SymbolInfoView,
};
use crate::position::{location, location_of};
use crate::scope::text_under;
use crate::sort::{sort_stably, sorting_keeps_items, stable_sorted, Ranked};
use crate::tables::Table;
use crate::text::{decimal, opt_view, push_decimal, same_text, views};
use vstd::prelude::*;
use vstd::string::*;

verus! {

broadcast use crate::text::group_views;

/// The id of a declared symbol.
pub open spec fn global_id(path: Seq<char>, symbol: SymbolRef) -> Seq<char> {
    "g:"@ + path + ":"@ + decimal(symbol.local as nat)
}

/// The id of a declared symbol.
pub fn global_symbol_id(path: &str, symbol: SymbolRef) -> (r: String)
    ensures
        r@ == global_id(path@, symbol),
{
    let mut out = "g:".to_owned();
    out.append(path);
    out.append(":");
    push_decimal(&mut out, symbol.local as u64);
    out
}

/// The kind of a symbol in words.
pub open spec fn kind_text(kind: SymbolKind) -> Seq<char> {
    match kind {
        SymbolKind::GlobalVariable => "globalVariable"@,
        SymbolKind::Function => "function"@,
        SymbolKind::Method { .. } => "method"@,
        SymbolKind::GetMethod => "getMethod"@,
        SymbolKind::Struct => "struct"@,
        SymbolKind::StructField => "structField"@,
        SymbolKind::Enum => "enum"@,
        SymbolKind::EnumMember => "enumMember"@,
        SymbolKind::Constant => "constant"@,
        SymbolKind::TypeAlias => "typeAlias"@,
    }
}

/// The kind of a symbol in words.
pub fn symbol_kind(kind: SymbolKind) -> (r: &'static str)
    ensures
        r@ == kind_text(kind),
{
    match kind {
        SymbolKind::GlobalVariable => "globalVariable",
        SymbolKind::Function => "function",
        SymbolKind::Method { .. } => "method",
        SymbolKind::GetMethod => "getMethod",
        SymbolKind::Struct => "struct",
        SymbolKind::StructField => "structField",
        SymbolKind::Enum => "enum",
        SymbolKind::EnumMember => "enumMember",
        SymbolKind::Constant => "constant",
        SymbolKind::TypeAlias => "typeAlias",
    }
}

/// The ids of symbols from position `i` on.
pub open spec fn ids_from(
    path: Seq<char>,
    symbols: Seq<SymbolFact>,
    i: int,
    acc: Map<SymbolRef, Seq<char>>,
) -> Map<SymbolRef, Seq<char>>
    decreases symbols.len() - i,
{
    if 0 <= i < symbols.len() {
        ids_from(path, symbols, i + 1, acc.insert(symbols[i].id, global_id(path, symbols[i].id)))
    } else {
        acc
    }
}

/// The ids of the symbols that the files from position `i` on declare.
pub open spec fn symbol_ids_from(
    files: Seq<FileFacts>,
    i: int,
    acc: Map<SymbolRef, Seq<char>>,
) -> Map<SymbolRef, Seq<char>>
    decreases files.len() - i,
{
    if 0 <= i < files.len() {
        symbol_ids_from(
            files,
            i + 1,
            ids_from(files[i].text.path@, file_symbols(files[i]), 0, acc),
        )
    } else {
        acc
    }
}

/// The ids of declared symbols.
pub fn collect_symbol_ids(files: &Vec<FileFacts>) -> (r: Table<SymbolRef, String>)
    ensures
        r@ == symbol_ids_from(files@, 0, Map::empty()),
{
    let mut out: Table<SymbolRef, String> = Table::new();
    let n: usize = files.len();
    let mut i: usize = 0;
    while i < n
        invariant
            i <= n,
            n == files@.len(),
            symbol_ids_from(files@, 0, Map::empty()) == symbol_ids_from(files@, i as int, out@),
        decreases n - i,
    {
        let symbols = all_global_symbols(&files[i]);
        let ghost all = file_symbols(files@[i as int]);
        let ghost before = out@;
        let m: usize = symbols.len();
        let mut j: usize = 0;
        while j < m
            invariant
                j <= m,
                i < files@.len(),
                m == symbols@.len(),
                symbol_pointees(symbols@) == all,
                ids_from(files@[i as int].text.path@, all, 0, before) == ids_from(
                    files@[i as int].text.path@,
                    all,
                    j as int,
                    out@,
                ),
            decreases m - j,
        {
            assert(all[j as int] == *symbols@[j as int]);
            let symbol = symbols[j].id;
            out.insert(symbol, global_symbol_id(files[i].text.path.as_str(), symbol));
            j += 1;
        }
        i += 1;
    }
    out
}

/// The full names of symbols from position `i` on.
pub open spec fn names_from(
    symbols: Seq<SymbolFact>,
    i: int,
    acc: Map<SymbolRef, Seq<char>>,
) -> Map<SymbolRef, Seq<char>>
    decreases symbols.len() - i,
{
    if 0 <= i < symbols.len() {
        names_from(symbols, i + 1, acc.insert(symbols[i].id, symbols[i].fqn@))
    } else {
        acc
    }
}

/// The full names of the symbols that the files from position `i` on declare.
pub open spec fn full_names_from(
    files: Seq<FileFacts>,
    i: int,
    acc: Map<SymbolRef, Seq<char>>,
) -> Map<SymbolRef, Seq<char>>
    decreases files.len() - i,
{
    if 0 <= i < files.len() {
        full_names_from(files, i + 1, names_from(file_symbols(files[i]), 0, acc))
    } else {
        acc
    }
}

/// The full names of declared symbols.
pub fn collect_full_names(files: &Vec<FileFacts>) -> (r: Table<SymbolRef, String>)
    ensures
        r@ == full_names_from(files@, 0, Map::empty()),
{
    let mut out: Table<SymbolRef, String> = Table::new();
    let n: usize = files.len();
    let mut i: usize = 0;
    while i < n
        invariant
            i <= n,
            n == files@.len(),
            full_names_from(files@, 0, Map::empty()) == full_names_from(files@, i as int, out@),
        decreases n - i,
    {
        let symbols = all_global_symbols(&files[i]);
        let ghost all = file_symbols(files@[i as int]);
        let ghost before = out@;
        let m: usize = symbols.len();
        let mut j: usize = 0;
        while j < m
            invariant
                j <= m,
                m == symbols@.len(),
                symbol_pointees(symbols@) == all,
                names_from(all, 0, before) == names_from(all, j as int, out@),
            decreases m - j,
        {
            assert(all[j as int] == *symbols@[j as int]);
            out.insert(symbols[j].id, symbols[j].fqn.clone());
            j += 1;
        }
        i += 1;
    }
    out
}

/// The node at exactly a span.
pub open spec fn exact_node(places: Map<SpanKey, Seq<char>>, file: u32, span: Span) -> Option<
    Seq<char>,
> {
    text_under(places, SpanKey { file, start: span.start, end: span.end })
}

/// The node at the first of two spans, or else at the second.
pub open spec fn node_of_spans(
    places: Map<SpanKey, Seq<char>>,
    file: u32,
    first: Span,
    second: Span,
) -> Option<Seq<char>> {
    match exact_node(places, file, first) {
        Some(id) => Some(id),
        None => exact_node(places, file, second),
    }
}

/// The node at exactly a span.
pub fn find_exact_node(places: &Table<SpanKey, String>, file: u32, span: Span) -> (r: Option<
    String,
>)
    ensures
        opt_view(r) == exact_node(places@, file, span),
{
    match places.get(&SpanKey { file, start: span.start, end: span.end }) {
        Some(id) => Some(id.clone()),
        None => None,
    }
}

fn find_node_of_spans(
    places: &Table<SpanKey, String>,
    file: u32,
    first: Span,
    second: Span,
) -> (r: Option<String>)
    ensures
        opt_view(r) == node_of_spans(places@, file, first, second),
{
    match find_exact_node(places, file, first) {
        Some(id) => Some(id),
        None => find_exact_node(places, file, second),
    }
}

/// The place of a span of a file.
pub open spec fn span_location(file: FileFacts, span: Span) -> SourceLocationView {
    location_of(file.text.path@, file.text.source@, span.start as int, span.end as int)
}

impl FileFacts {
    /// The place of a span of the file.
    pub fn location(&self, span: Span) -> (r: SourceLocation)
        ensures
            r@ == span_location(*self, span),
    {
        location(
            self.text.path.as_str(),
            self.text.source.as_str(),
            span.start as usize,
            span.end as usize,
        )
    }
}

/// A documentation; none when it is empty.
pub open spec fn documented(doc: Seq<char>) -> Option<Seq<char>> {
    if doc.len() == 0 {
        None
    } else {
        Some(doc)
    }
}

fn documentation(doc: &String) -> (r: Option<String>)
    ensures
        opt_view(r) == documented(doc@),
{
    proof {
        reveal_strlit("");
    }
    if same_text(doc.as_str(), "") {
        assert(doc@.len() == 0);
        None
    } else {
        assert(doc@.len() > 0) by {
            if doc@.len() == 0 {
                assert(doc@ =~= ""@);
            }
        }
        Some(doc.clone())
    }
}

/// The id of a symbol in a table; the id that its file gives it when it is not listed.
pub open spec fn listed_id(
    ids: Map<SymbolRef, Seq<char>>,
    path: Seq<char>,
    symbol: SymbolRef,
) -> Seq<char> {
    match text_under(ids, symbol) {
        Some(id) => id,
        None => global_id(path, symbol),
    }
}

/// A declared symbol.
pub open spec fn global_info(
    file: FileFacts,
    symbol: SymbolFact,
    containing: Option<Seq<char>>,
    ids: Map<SymbolRef, Seq<char>>,
    places: Map<SpanKey, Seq<char>>,
) -> SymbolInfoView {
    SymbolInfoView {
        id: listed_id(ids, file.text.path@, symbol.id),
        name: symbol.name@,
        fqn: symbol.fqn@,
        kind: kind_text(symbol.kind),
        declaration: span_location(file, symbol.name_span),
        body: Some(span_location(file, symbol.body_span)),
        containing_symbol: containing,
        documentation: documented(symbol.doc@),
        flags: SymbolFlags {
            deprecated: symbol.deprecated,
            pure: symbol.pure,
            private: symbol.private,
            ..no_flags()
        },
        node_id: node_of_spans(places, file.id, symbol.body_span, symbol.name_span),
    }
}

/// A declared symbol and the symbols inside it.
pub open spec fn global_infos(
    file: FileFacts,
    symbol: SymbolFact,
    containing: Option<Seq<char>>,
    ids: Map<SymbolRef, Seq<char>>,
    places: Map<SpanKey, Seq<char>>,
) -> Seq<SymbolInfoView>
    decreases symbol, nested(symbol).len() + 1,
{
    nested_infos_from(
        file,
        symbol,
        ids,
        places,
        0,
        seq![global_info(file, symbol, containing, ids, places)],
    )
}

pub open spec fn nested_infos_from(
    file: FileFacts,
    symbol: SymbolFact,
    ids: Map<SymbolRef, Seq<char>>,
    places: Map<SpanKey, Seq<char>>,
    i: int,
    acc: Seq<SymbolInfoView>,
) -> Seq<SymbolInfoView>
    decreases symbol, nested(symbol).len() - i,
{
    if 0 <= i < nested(symbol).len() {
        proof {
            lemma_nested(symbol, i);
        }
        nested_infos_from(
            file,
            symbol,
            ids,
            places,
            i + 1,
            acc + global_infos(
                file,
                nested(symbol)[i],
                Some(listed_id(ids, file.text.path@, symbol.id)),
                ids,
                places,
            ),
        )
    } else {
        acc
    }
}

fn push_global_symbol(
    file: &FileFacts,
    symbol: &SymbolFact,
    containing: Option<String>,
    ids: &Table<SymbolRef, String>,
    places: &Table<SpanKey, String>,
    out: &mut Vec<SymbolInfo>,
)
    ensures
        views(final(out)@) == views(old(out)@) + global_infos(
            *file,
            *symbol,
            opt_view(containing),
            ids@,
            places@,
        ),
    decreases symbol,
{
    let ghost start = views(out@);
    let id = match ids.get(&symbol.id) {
        Some(id) => id.clone(),
        None => global_symbol_id(file.text.path.as_str(), symbol.id),
    };
    let info = SymbolInfo {
        id: id.clone(),
        name: symbol.name.clone(),
        fqn: symbol.fqn.clone(),
        kind: symbol_kind(symbol.kind).to_owned(),
        declaration: file.location(symbol.name_span),
        body: Some(file.location(symbol.body_span)),
        containing_symbol: containing,
        documentation: documentation(&symbol.doc),
        flags: SymbolFlags {
            deprecated: symbol.deprecated,
            pure: symbol.pure,
            private: symbol.private,
            ..SymbolFlags::default()
        },
        node_id: find_node_of_spans(places, file.id, symbol.body_span, symbol.name_span),
    };
    let ghost first = global_info(*file, *symbol, opt_view(containing), ids@, places@);
    assert(info@ =~= first);
    out.push(info);
    let ghost mut acc = seq![first];
    assert(views(out@) =~= start + acc);
    let has = match symbol.kind {
        SymbolKind::Struct | SymbolKind::Enum => true,
        _ => false,
    };
    if has {
        let n: usize = symbol.children.len();
        let mut i: usize = 0;
        while i < n
            invariant
                i <= n,
                n == symbol.children@.len(),
                nested(*symbol) == symbol.children@,
                id@ == listed_id(ids@, file.text.path@, symbol.id),
                views(out@) == start + acc,
                nested_infos_from(*file, *symbol, ids@, places@, 0, seq![first])
                    == nested_infos_from(*file, *symbol, ids@, places@, i as int, acc),
            decreases n - i,
        {
            proof {
                lemma_nested(*symbol, i as int);
            }
            push_global_symbol(
                file,
                &symbol.children[i],
                Some(id.clone()),
                ids,
                places,
                out,
            );
            proof {
                let more = global_infos(
                    *file,
                    symbol.children@[i as int],
                    Some(id@),
                    ids@,
                    places@,
                );
                assert(start + acc + more =~= start + (acc + more));
                acc = acc + more;
            }
            i += 1;
        }
    }
}

/// A symbol that stands for a contract or one of its fields.
pub open spec fn contract_info(
    file: FileFacts,
    fact: FieldFact,
    id: Seq<char>,
    fqn: Seq<char>,
    kind: Seq<char>,
    containing: Option<Seq<char>>,
    places: Map<SpanKey, Seq<char>>,
) -> SymbolInfoView {
    SymbolInfoView {
        id,
        name: fact.name@,
        fqn,
        kind,
        declaration: span_location(file, fact.name_span),
        body: Some(span_location(file, fact.body_span)),
        containing_symbol: containing,
        documentation: documented(fact.doc@),
        flags: no_flags(),
        node_id: node_of_spans(places, file.id, fact.body_span, fact.name_span),
    }
}

fn make_contract_info(
    file: &FileFacts,
    fact: &FieldFact,
    id: String,
    fqn: String,
    kind: &str,
    containing: Option<String>,
    places: &Table<SpanKey, String>,
) -> (r: SymbolInfo)
    ensures
        r@ == contract_info(*file, *fact, id@, fqn@, kind@, opt_view(containing), places@),
{
    SymbolInfo {
        id,
        name: fact.name.clone(),
        fqn,
        kind: kind.to_owned(),
        declaration: file.location(fact.name_span),
        body: Some(file.location(fact.body_span)),
        containing_symbol: containing,
        documentation: documentation(&fact.doc),
        flags: SymbolFlags::default(),
        node_id: find_node_of_spans(places, file.id, fact.body_span, fact.name_span),
    }
}

/// The id of the contract of a file.
pub open spec fn contract_id(path: Seq<char>) -> Seq<char> {
    "c:"@ + path
}

/// The fields of a contract from position `i` on.
pub open spec fn contract_fields_from(
    file: FileFacts,
    name: Seq<char>,
    fields: Seq<FieldFact>,
    places: Map<SpanKey, Seq<char>>,
    i: int,
    acc: Seq<SymbolInfoView>,
) -> Seq<SymbolInfoView>
    decreases fields.len() - i,
{
    if 0 <= i < fields.len() {
        let contract = contract_id(file.text.path@);
        contract_fields_from(
            file,
            name,
            fields,
            places,
            i + 1,
            acc.push(
                contract_info(
                    file,
                    fields[i],
                    contract + ":"@ + decimal(fields[i].name_span.start as nat),
                    name + "."@ + fields[i].name@,
                    "contractField"@,
                    Some(contract),
                    places,
                ),
            ),
        )
    } else {
        acc
    }
}

/// The contract of a file, with its fields.
pub open spec fn contract_infos(file: FileFacts, places: Map<SpanKey, Seq<char>>) -> Seq<
    SymbolInfoView,
> {
    match file.contract {
        Some(contract) => contract_fields_from(
            file,
            contract.header.name@,
            contract.fields@,
            places,
            0,
            seq![
                contract_info(
                    file,
                    contract.header,
                    contract_id(file.text.path@),
                    contract.header.name@,
                    "contract"@,
                    None,
                    places,
                ),
            ],
        ),
        None => Seq::empty(),
    }
}

fn push_contract(file: &FileFacts, places: &Table<SpanKey, String>, out: &mut Vec<SymbolInfo>)
    ensures
        views(final(out)@) == views(old(out)@) + contract_infos(*file, places@),
{
    let ghost start = views(out@);
    let contract = match &file.contract {
        Some(contract) => contract,
        None => {
            assert(start + Seq::empty() =~= start);
            return;
        },
    };
    let mut id = "c:".to_owned();
    id.append(file.text.path.as_str());
    let info = make_contract_info(
        file,
        &contract.header,
        id.clone(),
        contract.header.name.clone(),
        "contract",
        None,
        places,
    );
    let ghost first = info@;
    out.push(info);
    let ghost mut acc = seq![first];
    assert(views(out@) =~= start + acc);
    let n: usize = contract.fields.len();
    let mut i: usize = 0;
    while i < n
        invariant
            i <= n,
            n == contract.fields@.len(),
            id@ == contract_id(file.text.path@),
            views(out@) == start + acc,
            contract_fields_from(
                *file,
                contract.header.name@,
                contract.fields@,
                places@,
                0,
                seq![first],
            ) == contract_fields_from(
                *file,
                contract.header.name@,
                contract.fields@,
                places@,
                i as int,
                acc,
            ),
        decreases n - i,
    {
        let field = &contract.fields[i];
        let mut field_id = id.clone();
        field_id.append(":");
        push_decimal(&mut field_id, field.name_span.start as u64);
        let mut fqn = contract.header.name.clone();
        fqn.append(".");
        fqn.append(field.name.as_str());
        let info = make_contract_info(
            file,
            field,
            field_id,
            fqn,
            "contractField",
            Some(id.clone()),
            places,
        );
        let ghost next = info@;
        out.push(info);
        proof {
            assert((start + acc).push(next) =~= start + acc.push(next));
            acc = acc.push(next);
        }
        i += 1;
    }
}

/// The position of an item, and the number by which it is sorted.
#[derive(Debug, Clone, Copy)]
pub struct Slot {
    pub key: u64,
    pub index: usize,
}

impl View for Slot {
    type V = Slot;

    open spec fn view(&self) -> Slot {
        *self
    }
}

impl Ranked for Slot {
    open spec fn before(a: Slot, b: Slot) -> bool {
        a.key < b.key
    }

    fn is_before(&self, other: &Self) -> (r: bool) {
        self.key < other.key
    }

    proof fn weak_order(a: Slot, b: Slot, c: Slot) {
    }
}

/// The locals of a file in the order of their definitions.
pub open spec fn local_order(locals: Seq<LocalFact>) -> Seq<Slot> {
    stable_sorted::<Slot>(
        Seq::new(
            locals.len(),
            |i: int| Slot { key: locals[i].span.start as u64, index: i as usize },
        ),
    )
}

/// Sorts positions by their numbers.
pub fn sort_slots(slots: Vec<Slot>) -> (r: Vec<Slot>)
    ensures
        r@ == stable_sorted::<Slot>(slots@),
        forall|i: int| 0 <= i < r@.len() ==> slots@.contains(#[trigger] r@[i]),
{
    let ghost all = slots@;
    assert(views(slots@) =~= all);
    let sorted = sort_stably(slots);
    proof {
        assert(views(sorted@) =~= sorted@);
        sorting_keeps_items::<Slot>(all);
        assert forall|i: int| 0 <= i < sorted@.len() implies all.contains(
            #[trigger] sorted@[i],
        ) by {
            assert(stable_sorted::<Slot>(all).contains(sorted@[i]));
        }
    }
    sorted
}

fn order_locals(locals: &Vec<LocalFact>) -> (r: Vec<Slot>)
    ensures
        r@ == local_order(locals@),
        forall|i: int| 0 <= i < r@.len() ==> (#[trigger] r@[i]).index < locals@.len(),
{
    let n: usize = locals.len();
    let ghost all: Seq<Slot> = Seq::new(
        locals@.len(),
        |i: int| Slot { key: locals@[i].span.start as u64, index: i as usize },
    );
    let mut slots: Vec<Slot> = Vec::new();
    let mut i: usize = 0;
    while i < n
        invariant
            i <= n,
            n == locals@.len(),
            all == Seq::new(
                locals@.len(),
                |i: int| Slot { key: locals@[i].span.start as u64, index: i as usize },
            ),
            slots@.len() == i,
            forall|j: int| 0 <= j < i ==> #[trigger] slots@[j] == all[j],
        decreases n - i,
    {
        slots.push(Slot { key: locals[i].span.start as u64, index: i });
        i += 1;
    }
    assert(slots@ =~= all);
    sort_slots(slots)
}

/// The id of a local.
pub open spec fn local_id(path: Seq<char>, local: LocalRef) -> Seq<char> {
    "l:"@ + path + ":"@ + decimal(local.local as nat)
}

fn local_id_text(path: &str, local: LocalRef) -> (r: String)
    ensures
        r@ == local_id(path@, local),
{
    let mut out = "l:".to_owned();
    out.append(path);
    out.append(":");
    push_decimal(&mut out, local.local as u64);
    out
}

/// The entry of an optional key.
pub open spec fn text_of_owner(
    table: Map<SymbolRef, Seq<char>>,
    owner: Option<SymbolRef>,
) -> Option<Seq<char>> {
    match owner {
        Some(symbol) => text_under(table, symbol),
        None => None,
    }
}

fn owner_text(table: &Table<SymbolRef, String>, owner: Option<SymbolRef>) -> (r: Option<String>)
    ensures
        opt_view(r) == text_of_owner(table@, owner),
{
    match owner {
        Some(symbol) => match table.get(&symbol) {
            Some(text) => Some(text.clone()),
            None => None,
        },
        None => None,
    }
}

/// The kind of a local in words.
pub open spec fn local_kind_text(kind: LocalKind) -> Seq<char> {
    match kind {
        LocalKind::Parameter { .. } => "parameter"@,
        LocalKind::Variable { .. } => "localVariable"@,
        LocalKind::Catch => "catchVariable"@,
        LocalKind::TypeParameter => "typeParameter"@,
    }
}

/// The flags of a local.
pub open spec fn local_flags(kind: LocalKind) -> SymbolFlags {
    SymbolFlags {
        mutable: match kind {
            LocalKind::Parameter { mutable } => mutable,
            LocalKind::Variable { mutable } => mutable,
            _ => false,
        },
        local: true,
        parameter: kind is Parameter,
        ..no_flags()
    }
}

/// A local.
pub open spec fn local_info(
    file: FileFacts,
    local: LocalFact,
    ids: Map<SymbolRef, Seq<char>>,
    names: Map<SymbolRef, Seq<char>>,
    places: Map<SpanKey, Seq<char>>,
) -> SymbolInfoView {
    SymbolInfoView {
        id: local_id(file.text.path@, local.id),
        name: local.name@,
        fqn: match text_of_owner(names, local.owner) {
            Some(owner) => owner + "::"@ + local.name@,
            None => local.name@,
        },
        kind: local_kind_text(local.kind),
        declaration: span_location(file, local.span),
        body: None,
        containing_symbol: text_of_owner(ids, local.owner),
        documentation: None,
        flags: local_flags(local.kind),
        node_id: exact_node(places, file.id, local.span),
    }
}

fn make_local_info(
    file: &FileFacts,
    local: &LocalFact,
    ids: &Table<SymbolRef, String>,
    names: &Table<SymbolRef, String>,
    places: &Table<SpanKey, String>,
) -> (r: SymbolInfo)
    ensures
        r@ == local_info(*file, *local, ids@, names@, places@),
{
    let (kind, mutable, parameter) = match local.kind {
        LocalKind::Parameter { mutable } => ("parameter", mutable, true),
        LocalKind::Variable { mutable } => ("localVariable", mutable, false),
        LocalKind::Catch => ("catchVariable", false, false),
        LocalKind::TypeParameter => ("typeParameter", false, false),
    };
    let fqn = match owner_text(names, local.owner) {
        Some(owner) => {
            let mut out = owner;
            out.append("::");
            out.append(local.name.as_str());
            out
        },
        None => local.name.clone(),
    };
    SymbolInfo {
        id: local_id_text(file.text.path.as_str(), local.id),
        name: local.name.clone(),
        fqn,
        kind: kind.to_owned(),
        declaration: file.location(local.span),
        body: None,
        containing_symbol: owner_text(ids, local.owner),
        documentation: None,
        flags: SymbolFlags { mutable, local: true, parameter, ..SymbolFlags::default() },
        node_id: find_exact_node(places, file.id, local.span),
    }
}

/// The locals of a file from position `i` of their order on.
pub open spec fn locals_from(
    file: FileFacts,
    locals: Seq<LocalFact>,
    order: Seq<Slot>,
    ids: Map<SymbolRef, Seq<char>>,
    names: Map<SymbolRef, Seq<char>>,
    places: Map<SpanKey, Seq<char>>,
    i: int,
    acc: Seq<SymbolInfoView>,
) -> Seq<SymbolInfoView>
    decreases order.len() - i,
{
    if 0 <= i < order.len() {
        locals_from(
            file,
            locals,
            order,
            ids,
            names,
            places,
            i + 1,
            acc.push(local_info(file, locals[order[i].index as int], ids, names, places)),
        )
    } else {
        acc
    }
}

/// The locals of a file.
pub open spec fn local_infos(
    file: FileFacts,
    ids: Map<SymbolRef, Seq<char>>,
    names: Map<SymbolRef, Seq<char>>,
    places: Map<SpanKey, Seq<char>>,
) -> Seq<SymbolInfoView> {
    match file.resolved {
        Some(facts) => locals_from(
            file,
            facts.locals@,
            local_order(facts.locals@),
            ids,
            names,
            places,
            0,
            Seq::empty(),
        ),
        None => Seq::empty(),
    }
}

fn push_locals(
    file: &FileFacts,
    ids: &Table<SymbolRef, String>,
    names: &Table<SymbolRef, String>,
    places: &Table<SpanKey, String>,
    out: &mut Vec<SymbolInfo>,
)
    ensures
        views(final(out)@) == views(old(out)@) + local_infos(*file, ids@, names@, places@),
{
    let ghost start = views(out@);
    let facts = match &file.resolved {
        Some(facts) => facts,
        None => {
            assert(start + Seq::empty() =~= start);
            return;
        },
    };
    let order = order_locals(&facts.locals);
    let ghost mut acc: Seq<SymbolInfoView> = Seq::empty();
    assert(start + acc =~= start);
    let n: usize = order.len();
    let mut i: usize = 0;
    while i < n
        invariant
            i <= n,
            n == order@.len(),
            forall|j: int| 0 <= j < n ==> (#[trigger] order@[j]).index < facts.locals@.len(),
            views(out@) == start + acc,
            locals_from(
                *file,
                facts.locals@,
                order@,
                ids@,
                names@,
                places@,
                0,
                Seq::empty(),
            ) == locals_from(
                *file,
                facts.locals@,
                order@,
                ids@,
                names@,
                places@,
                i as int,
                acc,
            ),
        decreases n - i,
    {
        let index: usize = order[i].index;
        let info = make_local_info(file, &facts.locals[index], ids, names, places);
        let ghost next = info@;
        out.push(info);
        proof {
            assert((start + acc).push(next) =~= start + acc.push(next));
            acc = acc.push(next);
        }
        i += 1;
    }
}

/// The declared symbols of a file from position `i` on.
pub open spec fn globals_from(
    file: FileFacts,
    ids: Map<SymbolRef, Seq<char>>,
    places: Map<SpanKey, Seq<char>>,
    i: int,
    acc: Seq<SymbolInfoView>,
) -> Seq<SymbolInfoView>
    decreases file.symbols@.len() - i,
{
    if 0 <= i < file.symbols@.len() {
        globals_from(
            file,
            ids,
            places,
            i + 1,
            acc + global_infos(file, file.symbols@[i], None, ids, places),
        )
    } else {
        acc
    }
}

/// The symbols of the files from position `i` on: contracts, declared symbols and locals.
pub open spec fn files_symbols_from(
    files: Seq<FileFacts>,
    ids: Map<SymbolRef, Seq<char>>,
    names: Map<SymbolRef, Seq<char>>,
    places: Map<SpanKey, Seq<char>>,
    i: int,
    acc: Seq<SymbolInfoView>,
) -> Seq<SymbolInfoView>
    decreases files.len() - i,
{
    if 0 <= i < files.len() {
        files_symbols_from(
            files,
            ids,
            names,
            places,
            i + 1,
            globals_from(files[i], ids, places, 0, acc + contract_infos(files[i], places))
                + local_infos(files[i], ids, names, places),
        )
    } else {
        acc
    }
}

/// The symbols of a project but for its lambdas, in the order of their ids.
pub open spec fn sorted_symbols(
    files: Seq<FileFacts>,
    ids: Map<SymbolRef, Seq<char>>,
    names: Map<SymbolRef, Seq<char>>,
    places: Map<SpanKey, Seq<char>>,
) -> Seq<SymbolInfoView> {
    stable_sorted::<SymbolInfo>(files_symbols_from(files, ids, names, places, 0, Seq::empty()))
}

/// The symbols of a project but for its lambdas.
pub fn collect_symbols(
    files: &Vec<FileFacts>,
    ids: &Table<SymbolRef, String>,
    names: &Table<SymbolRef, String>,
    places: &Table<SpanKey, String>,
) -> (r: Vec<SymbolInfo>)
    ensures
        views(r@) == sorted_symbols(files@, ids@, names@, places@),
{
    let mut out: Vec<SymbolInfo> = Vec::new();
    let n: usize = files.len();
    let mut i: usize = 0;
    while i < n
        invariant
            i <= n,
            n == files@.len(),
            files_symbols_from(files@, ids@, names@, places@, 0, Seq::empty())
                == files_symbols_from(files@, ids@, names@, places@, i as int, views(out@)),
        decreases n - i,
    {
        let file = &files[i];
        push_contract(file, places, &mut out);
        let ghost before = views(out@);
        let m: usize = file.symbols.len();
        let mut j: usize = 0;
        while j < m
            invariant
                j <= m,
                m == file.symbols@.len(),
                globals_from(*file, ids@, places@, 0, before) == globals_from(
                    *file,
                    ids@,
                    places@,
                    j as int,
                    views(out@),
                ),
            decreases m - j,
        {
            push_global_symbol(file, &file.symbols[j], None, ids, places, &mut out);
            j += 1;
        }
        push_locals(file, ids, names, places, &mut out);
        i += 1;
    }
    sort_stably(out)
}

/// The ids of locals from position `i` on.
pub open spec fn local_ids_of(
    path: Seq<char>,
    locals: Seq<LocalFact>,
    i: int,
    acc: Map<LocalRef, Seq<char>>,
) -> Map<LocalRef, Seq<char>>
    decreases locals.len() - i,
{
    if 0 <= i < locals.len() {
        local_ids_of(
            path,
            locals,
            i + 1,
            acc.insert(locals[i].id, local_id(path, locals[i].id)),
        )
    } else {
        acc
    }
}

/// The ids of the locals of the files from position `i` on.
pub open spec fn local_ids_from(
    files: Seq<FileFacts>,
    i: int,
    acc: Map<LocalRef, Seq<char>>,
) -> Map<LocalRef, Seq<char>>
    decreases files.len() - i,
{
    if 0 <= i < files.len() {
        local_ids_from(
            files,
            i + 1,
            match files[i].resolved {
                Some(facts) => local_ids_of(files[i].text.path@, facts.locals@, 0, acc),
                None => acc,
            },
        )
    } else {
        acc
    }
}

/// The ids of locals.
pub fn collect_local_ids(files: &Vec<FileFacts>) -> (r: Table<LocalRef, String>)
    ensures
        r@ == local_ids_from(files@, 0, Map::empty()),
{
    let mut out: Table<LocalRef, String> = Table::new();
    let n: usize = files.len();
    let mut i: usize = 0;
    while i < n
        invariant
            i <= n,
            n == files@.len(),
            local_ids_from(files@, 0, Map::empty()) == local_ids_from(files@, i as int, out@),
        decreases n - i,
    {
        match &files[i].resolved {
            Some(facts) => {
                let ghost before = out@;
                let path = &files[i].text.path;
                let m: usize = facts.locals.len();
                let mut j: usize = 0;
                while j < m
                    invariant
                        j <= m,
                        m == facts.locals@.len(),
                        local_ids_of(path@, facts.locals@, 0, before) == local_ids_of(
                            path@,
                            facts.locals@,
                            j as int,
                            out@,
                        ),
                    decreases m - j,
                {
                    let local = facts.locals[j].id;
                    out.insert(local, local_id_text(path.as_str(), local));
                    j += 1;
                }
            },
            None => {},
        }
        i += 1;
    }
    out
}

} // verus!
