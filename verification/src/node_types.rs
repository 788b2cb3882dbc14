//! The types of the nodes of a project, and the collections among them.
use crate::facts::{
    all_global_symbols, file_symbols, symbol_pointees, BodyFacts, ExpressionFact, FileFacts,
    SymbolFact, TypeData, TypeFact,
};
use crate::ids::{Span, SpanKey, SymbolRef};
use crate::model::{NodeType, NodeTypeView};
use crate::scope::CollectionKind;
use crate::sort::{
    deduped, drop_repeats, dropping_repeats_adds_nothing, sort_stably, sorting_keeps_items,
    stable_sorted, Repeats,
};
use crate::symbols::{exact_node, find_exact_node, sort_slots, Slot};
use crate::tables::{KeyMap, Table};
use crate::text::{same_text, views};
use crate::types::{
    id_in, is_in_list, is_named, lemma_still_named, lemma_with_type, lists_all, mentions_named,
    type_list_stays_closed, types_closed, with_type, ListedView, TypeBuilder,
};
use vstd::prelude::*;
use vstd::string::*;

verus! {

broadcast use crate::text::group_views;

/// The listed types, and the types of nodes.
#[verifier::ext_equal]
pub struct FoundTypesView {
    pub listed: ListedView,
    pub node_types: Seq<NodeTypeView>,
}

/// What is needed to find the types of nodes.
pub struct Typing<'a> {
    pub types: &'a Vec<TypeFact>,
    pub ids: &'a Table<SymbolRef, String>,
    pub places: &'a Table<SpanKey, String>,
}

/// What is needed to find the types of nodes.
#[verifier::ext_equal]
pub struct TypingView {
    pub types: Seq<TypeFact>,
    pub ids: Map<SymbolRef, Seq<char>>,
    pub places: Map<SpanKey, Seq<char>>,
}

impl<'a> View for Typing<'a> {
    type V = TypingView;

    open spec fn view(&self) -> TypingView {
        TypingView { types: self.types@, ids: self.ids@, places: self.places@ }
    }
}

/// The types with that of the node at a span.
pub open spec fn with_typed(
    typing: TypingView,
    file: u32,
    span: Span,
    number: u32,
    acc: FoundTypesView,
) -> FoundTypesView {
    match exact_node(typing.places, file, span) {
        Some(node_id) => {
            let listed = with_type(typing.types, typing.ids, number, acc.listed);
            FoundTypesView {
                listed,
                node_types: acc.node_types.push(
                    NodeTypeView { node_id, type_id: id_in(listed.ids, number) },
                ),
            }
        },
        None => acc,
    }
}

/// The types with those of declared symbols from position `i` on.
pub open spec fn typed_symbols_from(
    typing: TypingView,
    symbols: Seq<SymbolFact>,
    i: int,
    acc: FoundTypesView,
) -> FoundTypesView
    decreases symbols.len() - i,
{
    if 0 <= i < symbols.len() {
        let symbol = symbols[i];
        let next = match symbol.type_number {
            Some(number) => with_typed(
                typing,
                symbol.id.file,
                symbol.name_span,
                number,
                with_typed(typing, symbol.id.file, symbol.body_span, number, acc),
            ),
            None => acc,
        };
        typed_symbols_from(typing, symbols, i + 1, next)
    } else {
        acc
    }
}

/// The types with those of the symbols that the files from position `i` on declare.
pub open spec fn typed_files_from(
    typing: TypingView,
    files: Seq<FileFacts>,
    i: int,
    acc: FoundTypesView,
) -> FoundTypesView
    decreases files.len() - i,
{
    if 0 <= i < files.len() {
        typed_files_from(
            typing,
            files,
            i + 1,
            typed_symbols_from(typing, file_symbols(files[i]), 0, acc),
        )
    } else {
        acc
    }
}

/// The smallest start of expressions from position `i` on, one up; zero when there are none.
pub open spec fn first_start_from(expressions: Seq<ExpressionFact>, i: int, acc: u64) -> u64
    decreases expressions.len() - i,
{
    if 0 <= i < expressions.len() {
        let here = (expressions[i].span.start + 1) as u64;
        first_start_from(
            expressions,
            i + 1,
            if acc == 0 || here < acc {
                here
            } else {
                acc
            },
        )
    } else {
        acc
    }
}

/// The bodies of a file in the order of their first expressions; bodies without any come first.
pub open spec fn body_order(bodies: Seq<BodyFacts>) -> Seq<Slot> {
    stable_sorted::<Slot>(
        Seq::new(
            bodies.len(),
            |i: int|
                Slot {
                    key: first_start_from(bodies[i].expressions@, 0, 0),
                    index: i as usize,
                },
        ),
    )
}

/// The expressions of a body in the order of their places.
pub open spec fn expression_order(expressions: Seq<ExpressionFact>) -> Seq<Slot> {
    stable_sorted::<Slot>(
        Seq::new(
            expressions.len(),
            |i: int|
                Slot {
                    key: (expressions[i].span.start * 0x1_0000_0000 + expressions[i].span.end)
                        as u64,
                    index: i as usize,
                },
        ),
    )
}

/// The types with those of expressions from position `i` of their order on.
pub open spec fn typed_expressions_from(
    typing: TypingView,
    file: u32,
    expressions: Seq<ExpressionFact>,
    order: Seq<Slot>,
    i: int,
    acc: FoundTypesView,
) -> FoundTypesView
    decreases order.len() - i,
{
    if 0 <= i < order.len() {
        let expression = expressions[order[i].index as int];
        typed_expressions_from(
            typing,
            file,
            expressions,
            order,
            i + 1,
            with_typed(typing, file, expression.span, expression.type_number, acc),
        )
    } else {
        acc
    }
}

/// The types with those of the bodies of a file from position `i` of their order on.
pub open spec fn typed_bodies_from(
    typing: TypingView,
    file: u32,
    bodies: Seq<BodyFacts>,
    order: Seq<Slot>,
    i: int,
    acc: FoundTypesView,
) -> FoundTypesView
    decreases order.len() - i,
{
    if 0 <= i < order.len() {
        let expressions = bodies[order[i].index as int].expressions@;
        typed_bodies_from(
            typing,
            file,
            bodies,
            order,
            i + 1,
            typed_expressions_from(
                typing,
                file,
                expressions,
                expression_order(expressions),
                0,
                acc,
            ),
        )
    } else {
        acc
    }
}

/// The types with those of the bodies of the files from position `i` on.
pub open spec fn typed_all_from(
    typing: TypingView,
    files: Seq<FileFacts>,
    i: int,
    acc: FoundTypesView,
) -> FoundTypesView
    decreases files.len() - i,
{
    if 0 <= i < files.len() {
        typed_all_from(
            typing,
            files,
            i + 1,
            typed_bodies_from(
                typing,
                files[i].id,
                files[i].bodies@,
                body_order(files[i].bodies@),
                0,
                acc,
            ),
        )
    } else {
        acc
    }
}

impl Repeats for NodeType {
    open spec fn repeats(a: NodeTypeView, b: NodeTypeView) -> bool {
        a.node_id == b.node_id
    }

    fn is_repeated_by(&self, other: &Self) -> (r: bool) {
        same_text(self.node_id.as_str(), other.node_id.as_str())
    }
}

/// The types of a project in the order in which they are met, and the types of its nodes in the
/// order of the nodes, one for each node.
pub open spec fn project_types(typing: TypingView, files: Seq<FileFacts>) -> FoundTypesView {
    let start = FoundTypesView {
        listed: ListedView { ids: Map::empty(), types: Seq::empty() },
        node_types: Seq::empty(),
    };
    let found = typed_all_from(typing, files, 0, typed_files_from(typing, files, 0, start));
    FoundTypesView {
        listed: found.listed,
        node_types: deduped::<NodeType>(stable_sorted::<NodeType>(found.node_types)),
    }
}

/// The number of a type is that of one of the types.
pub open spec fn numbers_ok(files: Seq<FileFacts>, count: nat) -> bool {
    forall|i: int| 0 <= i < files.len() ==> #[trigger] file_numbers_ok(files[i], count)
}

pub open spec fn file_numbers_ok(file: FileFacts, count: nat) -> bool {
    &&& forall|j: int|
        0 <= j < file_symbols(file).len() ==> ((#[trigger] file_symbols(
            file,
        )[j]).type_number matches Some(n) ==> n < count)
    &&& forall|j: int|
        0 <= j < file.bodies@.len() ==> #[trigger] body_numbers_ok(file.bodies@[j], count)
}

pub open spec fn body_numbers_ok(body: BodyFacts, count: nat) -> bool {
    forall|k: int|
        0 <= k < body.expressions@.len() ==> (#[trigger] body.expressions@[k]).type_number < count
}

fn is_body_ok(body: &BodyFacts, count: usize) -> (r: bool)
    ensures
        r == body_numbers_ok(*body, count as nat),
{
    let n: usize = body.expressions.len();
    let mut i: usize = 0;
    while i < n
        invariant
            i <= n,
            n == body.expressions@.len(),
            forall|k: int|
                0 <= k < i ==> (#[trigger] body.expressions@[k]).type_number < count,
        decreases n - i,
    {
        if body.expressions[i].type_number as usize >= count {
            assert(body.expressions@[i as int].type_number >= count);
            return false;
        }
        i += 1;
    }
    true
}

fn is_file_ok(file: &FileFacts, count: usize) -> (r: bool)
    ensures
        r == file_numbers_ok(*file, count as nat),
{
    let symbols = all_global_symbols(file);
    let ghost all = file_symbols(*file);
    let n: usize = symbols.len();
    let mut i: usize = 0;
    while i < n
        invariant
            i <= n,
            n == symbols@.len(),
            symbol_pointees(symbols@) == all,
            all == file_symbols(*file),
            forall|j: int|
                0 <= j < i ==> ((#[trigger] all[j]).type_number matches Some(n) ==> n < count),
        decreases n - i,
    {
        assert(all[i as int] == *symbols@[i as int]);
        match symbols[i].type_number {
            Some(number) => {
                if number as usize >= count {
                    assert(!(file_symbols(*file)[i as int].type_number matches Some(n)
                        ==> n < count));
                    return false;
                }
            },
            None => {},
        }
        i += 1;
    }
    let m: usize = file.bodies.len();
    let mut j: usize = 0;
    while j < m
        invariant
            j <= m,
            m == file.bodies@.len(),
            forall|k: int| 0 <= k < j ==> #[trigger] body_numbers_ok(
                file.bodies@[k],
                count as nat,
            ),
        decreases m - j,
    {
        if !is_body_ok(&file.bodies[j], count) {
            assert(!body_numbers_ok(file.bodies@[j as int], count as nat));
            return false;
        }
        j += 1;
    }
    true
}

/// Whether each number of a type is that of one of the types.
pub fn are_numbers_ok(files: &Vec<FileFacts>, count: usize) -> (r: bool)
    ensures
        r == numbers_ok(files@, count as nat),
{
    let n: usize = files.len();
    let mut i: usize = 0;
    while i < n
        invariant
            i <= n,
            n == files@.len(),
            forall|j: int| 0 <= j < i ==> #[trigger] file_numbers_ok(files@[j], count as nat),
        decreases n - i,
    {
        if !is_file_ok(&files[i], count) {
            assert(!file_numbers_ok(files@[i as int], count as nat));
            return false;
        }
        i += 1;
    }
    true
}

fn first_start(expressions: &Vec<ExpressionFact>) -> (r: u64)
    ensures
        r == first_start_from(expressions@, 0, 0),
{
    let n: usize = expressions.len();
    let mut acc: u64 = 0;
    let mut i: usize = 0;
    while i < n
        invariant
            i <= n,
            n == expressions@.len(),
            first_start_from(expressions@, 0, 0) == first_start_from(
                expressions@,
                i as int,
                acc,
            ),
        decreases n - i,
    {
        let here: u64 = expressions[i].span.start as u64 + 1;
        if acc == 0 || here < acc {
            acc = here;
        }
        i += 1;
    }
    acc
}

fn order_bodies(bodies: &Vec<BodyFacts>) -> (r: Vec<Slot>)
    ensures
        r@ == body_order(bodies@),
        forall|i: int| 0 <= i < r@.len() ==> (#[trigger] r@[i]).index < bodies@.len(),
{
    let n: usize = bodies.len();
    let ghost all: Seq<Slot> = Seq::new(
        bodies@.len(),
        |i: int|
            Slot { key: first_start_from(bodies@[i].expressions@, 0, 0), index: i as usize },
    );
    let mut slots: Vec<Slot> = Vec::new();
    let mut i: usize = 0;
    while i < n
        invariant
            i <= n,
            n == bodies@.len(),
            all == Seq::new(
                bodies@.len(),
                |i: int|
                    Slot {
                        key: first_start_from(bodies@[i].expressions@, 0, 0),
                        index: i as usize,
                    },
            ),
            slots@.len() == i,
            forall|j: int| 0 <= j < i ==> #[trigger] slots@[j] == all[j],
        decreases n - i,
    {
        slots.push(Slot { key: first_start(&bodies[i].expressions), index: i });
        i += 1;
    }
    assert(slots@ =~= all);
    sort_slots(slots)
}

fn order_expressions(expressions: &Vec<ExpressionFact>) -> (r: Vec<Slot>)
    ensures
        r@ == expression_order(expressions@),
        forall|i: int| 0 <= i < r@.len() ==> (#[trigger] r@[i]).index < expressions@.len(),
{
    let n: usize = expressions.len();
    let ghost all: Seq<Slot> = Seq::new(
        expressions@.len(),
        |i: int|
            Slot {
                key: (expressions@[i].span.start * 0x1_0000_0000 + expressions@[i].span.end)
                    as u64,
                index: i as usize,
            },
    );
    let mut slots: Vec<Slot> = Vec::new();
    let mut i: usize = 0;
    while i < n
        invariant
            i <= n,
            n == expressions@.len(),
            all == Seq::new(
                expressions@.len(),
                |i: int|
                    Slot {
                        key: (expressions@[i].span.start * 0x1_0000_0000
                            + expressions@[i].span.end) as u64,
                        index: i as usize,
                    },
            ),
            slots@.len() == i,
            forall|j: int| 0 <= j < i ==> #[trigger] slots@[j] == all[j],
        decreases n - i,
    {
        let span = expressions[i].span;
        let key: u64 = span.start as u64 * 0x1_0000_0000 + span.end as u64;
        slots.push(Slot { key, index: i });
        i += 1;
    }
    assert(slots@ =~= all);
    sort_slots(slots)
}

/// The listed types, and the types of nodes.
#[derive(Debug)]
pub struct FoundTypes {
    pub builder: TypeBuilder,
    pub node_types: Vec<NodeType>,
}

impl View for FoundTypes {
    type V = FoundTypesView;

    open spec fn view(&self) -> FoundTypesView {
        FoundTypesView { listed: self.builder@, node_types: views(self.node_types@) }
    }
}

impl<'a> Typing<'a> {
    fn add(&self, file: u32, span: Span, number: u32, found: &mut FoundTypes)
        requires
            self.types@.len() <= 0x1_0000_0000,
        ensures
            final(found)@ == with_typed(self@, file, span, number, old(found)@),
    {
        match find_exact_node(self.places, file, span) {
            Some(node_id) => {
                let type_id = found.builder.convert(self.types, self.ids, number);
                found.node_types.push(NodeType { node_id, type_id });
            },
            None => {},
        }
    }

    fn add_symbols(&self, file: &FileFacts, found: &mut FoundTypes)
        requires
            self.types@.len() <= 0x1_0000_0000,
        ensures
            final(found)@ == typed_symbols_from(self@, file_symbols(*file), 0, old(found)@),
    {
        let symbols = all_global_symbols(file);
        let ghost all = file_symbols(*file);
        let ghost start = found@;
        let n: usize = symbols.len();
        let mut i: usize = 0;
        while i < n
            invariant
                i <= n,
                n == symbols@.len(),
                self.types@.len() <= 0x1_0000_0000,
                symbol_pointees(symbols@) == all,
                typed_symbols_from(self@, all, 0, start) == typed_symbols_from(
                    self@,
                    all,
                    i as int,
                    found@,
                ),
            decreases n - i,
        {
            assert(all[i as int] == *symbols@[i as int]);
            let symbol = symbols[i];
            match symbol.type_number {
                Some(number) => {
                    self.add(symbol.id.file, symbol.body_span, number, found);
                    self.add(symbol.id.file, symbol.name_span, number, found);
                },
                None => {},
            }
            i += 1;
        }
    }

    fn add_expressions(
        &self,
        file: u32,
        expressions: &Vec<ExpressionFact>,
        found: &mut FoundTypes,
    )
        requires
            self.types@.len() <= 0x1_0000_0000,
        ensures
            final(found)@ == typed_expressions_from(
                self@,
                file,
                expressions@,
                expression_order(expressions@),
                0,
                old(found)@,
            ),
    {
        let order = order_expressions(expressions);
        let ghost start = found@;
        let n: usize = order.len();
        let mut i: usize = 0;
        while i < n
            invariant
                i <= n,
                n == order@.len(),
                self.types@.len() <= 0x1_0000_0000,
                forall|j: int| 0 <= j < n ==> (#[trigger] order@[j]).index < expressions@.len(),
                typed_expressions_from(self@, file, expressions@, order@, 0, start)
                    == typed_expressions_from(
                    self@,
                    file,
                    expressions@,
                    order@,
                    i as int,
                    found@,
                ),
            decreases n - i,
        {
            let index: usize = order[i].index;
            let expression = expressions[index];
            self.add(file, expression.span, expression.type_number, found);
            i += 1;
        }
    }

    fn add_bodies(&self, file: u32, bodies: &Vec<BodyFacts>, found: &mut FoundTypes)
        requires
            self.types@.len() <= 0x1_0000_0000,
        ensures
            final(found)@ == typed_bodies_from(
                self@,
                file,
                bodies@,
                body_order(bodies@),
                0,
                old(found)@,
            ),
    {
        let order = order_bodies(bodies);
        let ghost start = found@;
        let n: usize = order.len();
        let mut i: usize = 0;
        while i < n
            invariant
                i <= n,
                n == order@.len(),
                self.types@.len() <= 0x1_0000_0000,
                forall|j: int| 0 <= j < n ==> (#[trigger] order@[j]).index < bodies@.len(),
                typed_bodies_from(self@, file, bodies@, order@, 0, start) == typed_bodies_from(
                    self@,
                    file,
                    bodies@,
                    order@,
                    i as int,
                    found@,
                ),
            decreases n - i,
        {
            let index: usize = order[i].index;
            self.add_expressions(file, &bodies[index].expressions, found);
            i += 1;
        }
    }

    /// The types of a project, and the types of its nodes.
    pub fn collect(&self, files: &Vec<FileFacts>) -> (r: FoundTypes)
        requires
            self.types@.len() <= 0x1_0000_0000,
        ensures
            r@ == project_types(self@, files@),
    {
        let mut found = FoundTypes { builder: TypeBuilder::new(), node_types: Vec::new() };
        let ghost start = FoundTypesView {
            listed: ListedView { ids: Map::empty(), types: Seq::empty() },
            node_types: Seq::empty(),
        };
        assert(found@ =~= start);
        let n: usize = files.len();
        let mut i: usize = 0;
        while i < n
            invariant
                i <= n,
                n == files@.len(),
                self.types@.len() <= 0x1_0000_0000,
                typed_files_from(self@, files@, 0, start) == typed_files_from(
                    self@,
                    files@,
                    i as int,
                    found@,
                ),
            decreases n - i,
        {
            self.add_symbols(&files[i], &mut found);
            i += 1;
        }
        let ghost middle = found@;
        let mut j: usize = 0;
        while j < n
            invariant
                j <= n,
                n == files@.len(),
                self.types@.len() <= 0x1_0000_0000,
                typed_all_from(self@, files@, 0, middle) == typed_all_from(
                    self@,
                    files@,
                    j as int,
                    found@,
                ),
            decreases n - j,
        {
            self.add_bodies(files[j].id, &files[j].bodies, &mut found);
            j += 1;
        }
        let FoundTypes { builder, node_types } = found;
        FoundTypes { builder, node_types: drop_repeats(sort_stably(node_types)) }
    }
}

/// Every type with an id is listed and mentions only such types, and every node has such a type.
pub open spec fn typed_ok(found: FoundTypesView) -> bool {
    &&& lists_all(found.listed, Set::empty())
    &&& mentions_named(found.listed)
    &&& forall|i: int|
        0 <= i < found.node_types.len() ==> is_named(
            found.listed.ids,
            (#[trigger] found.node_types[i]).type_id,
        )
}

proof fn lemma_with_typed(
    typing: TypingView,
    file: u32,
    span: Span,
    number: u32,
    acc: FoundTypesView,
)
    requires
        typing.types.len() <= 0x1_0000_0000,
        types_closed(typing.types),
        number < typing.types.len(),
        typed_ok(acc),
    ensures
        typed_ok(with_typed(typing, file, span, number, acc)),
{
    match exact_node(typing.places, file, span) {
        Some(_) => {
            let listed = with_type(typing.types, typing.ids, number, acc.listed);
            lemma_with_type(typing.types, typing.ids, number, acc.listed);
            type_list_stays_closed(typing.types, typing.ids, number, acc.listed);
            let after = with_typed(typing, file, span, number, acc);
            assert forall|i: int| 0 <= i < after.node_types.len() implies is_named(
                after.listed.ids,
                (#[trigger] after.node_types[i]).type_id,
            ) by {
                if i < acc.node_types.len() {
                    assert(after.node_types[i] == acc.node_types[i]);
                    lemma_still_named(acc.listed.ids, listed.ids, acc.node_types[i].type_id);
                } else {
                    assert(listed.ids.contains_key(number));
                }
            }
        },
        None => {},
    }
}

proof fn lemma_typed_symbols(
    typing: TypingView,
    symbols: Seq<SymbolFact>,
    i: int,
    acc: FoundTypesView,
)
    requires
        0 <= i,
        typing.types.len() <= 0x1_0000_0000,
        types_closed(typing.types),
        forall|j: int|
            0 <= j < symbols.len() ==> ((#[trigger] symbols[j]).type_number matches Some(n) ==> n
                < typing.types.len()),
        typed_ok(acc),
    ensures
        typed_ok(typed_symbols_from(typing, symbols, i, acc)),
    decreases symbols.len() - i,
{
    if i < symbols.len() {
        let symbol = symbols[i];
        let next = match symbol.type_number {
            Some(number) => {
                let middle = with_typed(typing, symbol.id.file, symbol.body_span, number, acc);
                lemma_with_typed(typing, symbol.id.file, symbol.body_span, number, acc);
                lemma_with_typed(typing, symbol.id.file, symbol.name_span, number, middle);
                with_typed(typing, symbol.id.file, symbol.name_span, number, middle)
            },
            None => acc,
        };
        lemma_typed_symbols(typing, symbols, i + 1, next);
    }
}

proof fn lemma_typed_files(
    typing: TypingView,
    files: Seq<FileFacts>,
    i: int,
    acc: FoundTypesView,
)
    requires
        0 <= i,
        typing.types.len() <= 0x1_0000_0000,
        types_closed(typing.types),
        numbers_ok(files, typing.types.len()),
        typed_ok(acc),
    ensures
        typed_ok(typed_files_from(typing, files, i, acc)),
    decreases files.len() - i,
{
    if i < files.len() {
        assert(file_numbers_ok(files[i], typing.types.len()));
        lemma_typed_symbols(typing, file_symbols(files[i]), 0, acc);
        lemma_typed_files(
            typing,
            files,
            i + 1,
            typed_symbols_from(typing, file_symbols(files[i]), 0, acc),
        );
    }
}

proof fn lemma_slots_in_range(slots: Seq<Slot>, n: nat)
    requires
        forall|i: int| 0 <= i < slots.len() ==> (#[trigger] slots[i]).index < n,
    ensures
        forall|i: int|
            0 <= i < stable_sorted::<Slot>(slots).len() ==> (#[trigger] stable_sorted::<Slot>(
                slots,
            )[i]).index < n,
{
    let sorted = stable_sorted::<Slot>(slots);
    sorting_keeps_items::<Slot>(slots);
    assert forall|i: int| 0 <= i < sorted.len() implies (#[trigger] sorted[i]).index < n by {
        assert(sorted.contains(sorted[i]));
        assert(slots.contains(sorted[i]));
        let j = choose|j: int| 0 <= j < slots.len() && slots[j] == sorted[i];
        assert(slots[j].index < n);
    }
}

proof fn lemma_typed_expressions(
    typing: TypingView,
    file: u32,
    expressions: Seq<ExpressionFact>,
    order: Seq<Slot>,
    i: int,
    acc: FoundTypesView,
)
    requires
        0 <= i,
        typing.types.len() <= 0x1_0000_0000,
        types_closed(typing.types),
        forall|k: int|
            0 <= k < expressions.len() ==> (#[trigger] expressions[k]).type_number
                < typing.types.len(),
        forall|k: int| 0 <= k < order.len() ==> (#[trigger] order[k]).index < expressions.len(),
        typed_ok(acc),
    ensures
        typed_ok(typed_expressions_from(typing, file, expressions, order, i, acc)),
    decreases order.len() - i,
{
    if i < order.len() {
        assert(order[i].index < expressions.len());
        let expression = expressions[order[i].index as int];
        lemma_with_typed(typing, file, expression.span, expression.type_number, acc);
        lemma_typed_expressions(
            typing,
            file,
            expressions,
            order,
            i + 1,
            with_typed(typing, file, expression.span, expression.type_number, acc),
        );
    }
}

proof fn lemma_typed_bodies(
    typing: TypingView,
    file: u32,
    bodies: Seq<BodyFacts>,
    order: Seq<Slot>,
    i: int,
    acc: FoundTypesView,
)
    requires
        0 <= i,
        typing.types.len() <= 0x1_0000_0000,
        types_closed(typing.types),
        forall|j: int|
            0 <= j < bodies.len() ==> #[trigger] body_numbers_ok(bodies[j], typing.types.len()),
        forall|k: int| 0 <= k < order.len() ==> (#[trigger] order[k]).index < bodies.len(),
        typed_ok(acc),
    ensures
        typed_ok(typed_bodies_from(typing, file, bodies, order, i, acc)),
    decreases order.len() - i,
{
    if i < order.len() {
        assert(order[i].index < bodies.len());
        let body = bodies[order[i].index as int];
        assert(body_numbers_ok(body, typing.types.len()));
        let expressions = body.expressions@;
        assert(body.expressions.len() == expressions.len());
        lemma_slots_in_range(
            Seq::new(
                expressions.len(),
                |i: int|
                    Slot {
                        key: (expressions[i].span.start * 0x1_0000_0000 + expressions[i].span.end)
                            as u64,
                        index: i as usize,
                    },
            ),
            expressions.len(),
        );
        let here = expression_order(expressions);
        lemma_typed_expressions(typing, file, expressions, here, 0, acc);
        lemma_typed_bodies(
            typing,
            file,
            bodies,
            order,
            i + 1,
            typed_expressions_from(typing, file, expressions, here, 0, acc),
        );
    }
}

proof fn lemma_typed_all(typing: TypingView, files: Seq<FileFacts>, i: int, acc: FoundTypesView)
    requires
        0 <= i,
        typing.types.len() <= 0x1_0000_0000,
        types_closed(typing.types),
        numbers_ok(files, typing.types.len()),
        typed_ok(acc),
    ensures
        typed_ok(typed_all_from(typing, files, i, acc)),
    decreases files.len() - i,
{
    if i < files.len() {
        assert(file_numbers_ok(files[i], typing.types.len()));
        let bodies = files[i].bodies@;
        assert(files[i].bodies.len() == bodies.len());
        lemma_slots_in_range(
            Seq::new(
                bodies.len(),
                |i: int|
                    Slot {
                        key: first_start_from(bodies[i].expressions@, 0, 0),
                        index: i as usize,
                    },
            ),
            bodies.len(),
        );
        lemma_typed_bodies(typing, files[i].id, bodies, body_order(bodies), 0, acc);
        lemma_typed_all(
            typing,
            files,
            i + 1,
            typed_bodies_from(typing, files[i].id, bodies, body_order(bodies), 0, acc),
        );
    }
}

/// The type of every node is listed, and so is every type that a listed type mentions.
pub proof fn node_types_are_listed(typing: TypingView, files: Seq<FileFacts>)
    requires
        typing.types.len() <= 0x1_0000_0000,
        types_closed(typing.types),
        numbers_ok(files, typing.types.len()),
    ensures
        ({
            let found = project_types(typing, files);
            &&& forall|i: int|
                0 <= i < found.node_types.len() ==> is_in_list(
                    found.listed.types,
                    (#[trigger] found.node_types[i]).type_id,
                )
            &&& forall|i: int, j: int|
                0 <= i < found.listed.types.len() && 0 <= j
                    < found.listed.types[i].element_types.len() ==> is_in_list(
                    found.listed.types,
                    #[trigger] found.listed.types[i].element_types[j],
                )
            &&& forall|i: int|
                0 <= i < found.listed.types.len() ==> ((
                #[trigger] found.listed.types[i]).return_type matches Some(id) ==> is_in_list(
                    found.listed.types,
                    id,
                ))
        }),
{
    let start = FoundTypesView {
        listed: ListedView { ids: Map::empty(), types: Seq::empty() },
        node_types: Seq::empty(),
    };
    let middle = typed_files_from(typing, files, 0, start);
    let end = typed_all_from(typing, files, 0, middle);
    lemma_typed_files(typing, files, 0, start);
    lemma_typed_all(typing, files, 0, middle);
    let found = project_types(typing, files);
    assert forall|id: Seq<char>| #[trigger] is_named(end.listed.ids, id) implies is_in_list(
        end.listed.types,
        id,
    ) by {
        let k = choose|k: u32| #[trigger]
            end.listed.ids.contains_key(k) && end.listed.ids[k] == id;
        assert(end.listed.ids.contains_key(k) && !Set::<u32>::empty().contains(k));
    }
    let sorted = stable_sorted::<NodeType>(end.node_types);
    assert forall|i: int| 0 <= i < found.node_types.len() implies is_in_list(
        found.listed.types,
        (#[trigger] found.node_types[i]).type_id,
    ) by {
        let node = found.node_types[i];
        assert(found.node_types.contains(node));
        dropping_repeats_adds_nothing::<NodeType>(sorted, node);
        sorting_keeps_items::<NodeType>(end.node_types);
        assert(end.node_types.contains(node));
        let j = choose|j: int| 0 <= j < end.node_types.len() && end.node_types[j] == node;
        assert(is_named(end.listed.ids, end.node_types[j].type_id));
    }
    assert forall|i: int, j: int|
        0 <= i < found.listed.types.len() && 0 <= j
            < found.listed.types[i].element_types.len() implies is_in_list(
        found.listed.types,
        #[trigger] found.listed.types[i].element_types[j],
    ) by {
        assert(is_named(end.listed.ids, end.listed.types[i].element_types[j]));
    }
    assert forall|i: int| 0 <= i < found.listed.types.len() implies ((
    #[trigger] found.listed.types[i]).return_type matches Some(id) ==> is_in_list(
        found.listed.types,
        id,
    )) by {
        match end.listed.types[i].return_type {
            Some(id) => {
                assert(is_named(end.listed.ids, id));
            },
            None => {},
        }
    }
}

/// The collection that a type is.
pub open spec fn collection_of(data: TypeData) -> Option<CollectionKind> {
    match data {
        TypeData::Array(_) => Some(CollectionKind::Array),
        TypeData::Mapping { .. } => Some(CollectionKind::Mapping),
        TypeData::Struct { name, .. } => if name@ == "map"@ {
            Some(CollectionKind::Mapping)
        } else if name@ == "lisp_list"@ {
            Some(CollectionKind::List)
        } else {
            None
        },
        _ => None,
    }
}

/// The collection that the type with a number is, behind its aliases.
pub open spec fn collection_number(types: Seq<TypeFact>, number: u32) -> Option<CollectionKind> {
    if number < types.len() && types[number as int].unaliased < types.len() {
        collection_of(types[types[number as int].unaliased as int].data)
    } else {
        None
    }
}

fn collection_kind_of(types: &Vec<TypeFact>, number: u32) -> (r: Option<CollectionKind>)
    ensures
        r == collection_number(types@, number),
{
    if number as usize >= types.len() {
        return None;
    }
    let inner: u32 = types[number as usize].unaliased;
    if inner as usize >= types.len() {
        return None;
    }
    match &types[inner as usize].data {
        TypeData::Array(_) => Some(CollectionKind::Array),
        TypeData::Mapping { .. } => Some(CollectionKind::Mapping),
        TypeData::Struct { name, .. } => if same_text(name.as_str(), "map") {
            Some(CollectionKind::Mapping)
        } else if same_text(name.as_str(), "lisp_list") {
            Some(CollectionKind::List)
        } else {
            None
        },
        _ => None,
    }
}

/// The collections among expressions from position `i` on.
pub open spec fn kinds_of_expressions(
    types: Seq<TypeFact>,
    file: u32,
    expressions: Seq<ExpressionFact>,
    i: int,
    acc: Map<SpanKey, CollectionKind>,
) -> Map<SpanKey, CollectionKind>
    decreases expressions.len() - i,
{
    if 0 <= i < expressions.len() {
        let span = expressions[i].span;
        let next = match collection_number(types, expressions[i].type_number) {
            Some(kind) => acc.insert(SpanKey { file, start: span.start, end: span.end }, kind),
            None => acc,
        };
        kinds_of_expressions(types, file, expressions, i + 1, next)
    } else {
        acc
    }
}

/// The collections among the bodies of a file from position `i` on.
pub open spec fn kinds_of_bodies(
    types: Seq<TypeFact>,
    file: u32,
    bodies: Seq<BodyFacts>,
    i: int,
    acc: Map<SpanKey, CollectionKind>,
) -> Map<SpanKey, CollectionKind>
    decreases bodies.len() - i,
{
    if 0 <= i < bodies.len() {
        kinds_of_bodies(
            types,
            file,
            bodies,
            i + 1,
            kinds_of_expressions(types, file, bodies[i].expressions@, 0, acc),
        )
    } else {
        acc
    }
}

/// The collections among the expressions of the files from position `i` on.
pub open spec fn kinds_from(
    types: Seq<TypeFact>,
    files: Seq<FileFacts>,
    i: int,
    acc: Map<SpanKey, CollectionKind>,
) -> Map<SpanKey, CollectionKind>
    decreases files.len() - i,
{
    if 0 <= i < files.len() {
        kinds_from(
            types,
            files,
            i + 1,
            kinds_of_bodies(types, files[i].id, files[i].bodies@, 0, acc),
        )
    } else {
        acc
    }
}

fn add_kinds(
    types: &Vec<TypeFact>,
    file: u32,
    expressions: &Vec<ExpressionFact>,
    out: &mut KeyMap<SpanKey, CollectionKind>,
)
    ensures
        final(out)@ == kinds_of_expressions(types@, file, expressions@, 0, old(out)@),
{
    let ghost start = out@;
    let n: usize = expressions.len();
    let mut i: usize = 0;
    while i < n
        invariant
            i <= n,
            n == expressions@.len(),
            kinds_of_expressions(types@, file, expressions@, 0, start) == kinds_of_expressions(
                types@,
                file,
                expressions@,
                i as int,
                out@,
            ),
        decreases n - i,
    {
        let span = expressions[i].span;
        match collection_kind_of(types, expressions[i].type_number) {
            Some(kind) => {
                out.insert(SpanKey { file, start: span.start, end: span.end }, kind);
            },
            None => {},
        }
        i += 1;
    }
}

/// The expressions of a project that are collections.
pub fn collection_kinds(types: &Vec<TypeFact>, files: &Vec<FileFacts>) -> (r: KeyMap<
    SpanKey,
    CollectionKind,
>)
    ensures
        r@ == kinds_from(types@, files@, 0, Map::empty()),
{
    let mut out: KeyMap<SpanKey, CollectionKind> = KeyMap::new();
    let n: usize = files.len();
    let mut i: usize = 0;
    while i < n
        invariant
            i <= n,
            n == files@.len(),
            kinds_from(types@, files@, 0, Map::empty()) == kinds_from(
                types@,
                files@,
                i as int,
                out@,
            ),
        decreases n - i,
    {
        let file: u32 = files[i].id;
        let bodies = &files[i].bodies;
        let ghost before = out@;
        let m: usize = bodies.len();
        let mut j: usize = 0;
        while j < m
            invariant
                j <= m,
                m == bodies@.len(),
                kinds_of_bodies(types@, file, bodies@, 0, before) == kinds_of_bodies(
                    types@,
                    file,
                    bodies@,
                    j as int,
                    out@,
                ),
            decreases m - j,
        {
            add_kinds(types, file, &bodies[j].expressions, &mut out);
            j += 1;
        }
        i += 1;
    }
    out
}

} // verus!
