//! The types of a project, and the types of its nodes.
use crate::facts::{TypeData, TypeFact};
use crate::ids::SymbolRef;
use crate::model::{TypeInfo, TypeInfoView};
use crate::scope::text_under;
use crate::tables::Table;
use crate::text::{decimal, push_decimal, views};
use vstd::prelude::*;
use vstd::string::*;

verus! {

broadcast use crate::text::group_views;

/// The kind of a type in words.
pub open spec fn type_kind(data: TypeData) -> Seq<char> {
    match data {
        TypeData::Struct { .. } => "struct"@,
        TypeData::Enum { .. } => "enum"@,
        TypeData::TypeAlias { .. } => "typeAlias"@,
        TypeData::Tensor(_) => "tensor"@,
        TypeData::Tuple(_) => "tuple"@,
        TypeData::Array(_) => "array"@,
        TypeData::Union(_) => "union"@,
        TypeData::Function { .. } => "function"@,
        TypeData::TypeParameter => "typeParameter"@,
        TypeData::Generic { .. } => "generic"@,
        TypeData::Builtin => "builtin"@,
        TypeData::Int => "integer"@,
        TypeData::Bool => "boolean"@,
        TypeData::Cell => "cell"@,
        TypeData::Slice => "slice"@,
        TypeData::Builder => "builder"@,
        TypeData::Continuation => "continuation"@,
        TypeData::Address => "address"@,
        TypeData::Mapping { .. } => "map"@,
        TypeData::Bits => "bits"@,
        TypeData::Bytes => "bytes"@,
        TypeData::UntypedTuple => "untypedTuple"@,
        TypeData::Null => "null"@,
        TypeData::Void => "void"@,
        TypeData::Never => "never"@,
        TypeData::Auto => "auto"@,
        TypeData::Undefined => "undefined"@,
        TypeData::Unknown => "unknown"@,
    }
}

/// The declaration that a type refers to.
pub open spec fn type_symbol(data: TypeData) -> Option<SymbolRef> {
    match data {
        TypeData::Struct { symbol, .. } => Some(symbol),
        TypeData::Enum { symbol } => Some(symbol),
        TypeData::TypeAlias { symbol, .. } => Some(symbol),
        _ => None,
    }
}

/// The types that a type is made of.
pub open spec fn type_elements(data: TypeData) -> Seq<u32> {
    match data {
        TypeData::Struct { arguments, .. } => arguments@,
        TypeData::TypeAlias { inner, arguments, .. } => seq![inner] + arguments@,
        TypeData::Tensor(items) => items@,
        TypeData::Tuple(items) => items@,
        TypeData::Array(item) => seq![item],
        TypeData::Union(items) => items@,
        TypeData::Function { parameters, .. } => parameters@,
        TypeData::Generic { inner, arguments } => seq![inner] + arguments@,
        TypeData::Mapping { key, value } => seq![key, value],
        _ => Seq::empty(),
    }
}

/// What a function type returns.
pub open spec fn type_result(data: TypeData) -> Option<u32> {
    match data {
        TypeData::Function { result, .. } => Some(result),
        _ => None,
    }
}

/// The types that a type is made of, and what it returns.
pub open spec fn type_parts(data: TypeData) -> Seq<u32> {
    match type_result(data) {
        Some(result) => type_elements(data).push(result),
        None => type_elements(data),
    }
}

/// The parts of each type are types.
pub open spec fn types_closed(types: Seq<TypeFact>) -> bool {
    forall|i: int, j: int|
        0 <= i < types.len() && 0 <= j < type_parts(types[i].data).len() ==> #[trigger] type_parts(
            types[i].data,
        )[j] < types.len()
}

/// The types that are listed so far, and their ids.
#[verifier::ext_equal]
pub struct ListedView {
    pub ids: Map<u32, Seq<char>>,
    pub types: Seq<TypeInfoView>,
}

/// How many of the first `n` types have no id.
pub open spec fn unlisted(ids: Map<u32, Seq<char>>, n: nat) -> nat
    decreases n,
{
    if n == 0 {
        0
    } else {
        unlisted(ids, (n - 1) as nat) + if ids.contains_key((n - 1) as u32) {
            0nat
        } else {
            1nat
        }
    }
}

pub proof fn lemma_unlisted_grows(a: Map<u32, Seq<char>>, b: Map<u32, Seq<char>>, n: nat)
    requires
        a.dom().subset_of(b.dom()),
    ensures
        unlisted(b, n) <= unlisted(a, n),
    decreases n,
{
    if n > 0 {
        lemma_unlisted_grows(a, b, (n - 1) as nat);
        if a.contains_key((n - 1) as u32) {
            assert(b.dom().contains((n - 1) as u32));
        }
    }
}

pub proof fn lemma_unlisted_insert(ids: Map<u32, Seq<char>>, key: u32, id: Seq<char>, n: nat)
    requires
        key < n,
        n <= 0x1_0000_0000,
        !ids.contains_key(key),
    ensures
        unlisted(ids.insert(key, id), n) < unlisted(ids, n),
    decreases n,
{
    let more = ids.insert(key, id);
    if key == n - 1 {
        lemma_unlisted_grows(ids, more, (n - 1) as nat);
    } else {
        lemma_unlisted_insert(ids, key, id, (n - 1) as nat);
    }
}

/// The id of a type in a table.
pub open spec fn id_in(ids: Map<u32, Seq<char>>, number: u32) -> Seq<char> {
    if ids.contains_key(number) {
        ids[number]
    } else {
        ""@
    }
}

/// The next id.
pub open spec fn next_id(ids: Map<u32, Seq<char>>) -> Seq<char> {
    "t"@ + decimal(ids.dom().len())
}

/// A listed type.
pub open spec fn type_info(
    fact: TypeFact,
    id: Seq<char>,
    symbols: Map<SymbolRef, Seq<char>>,
    ids: Map<u32, Seq<char>>,
) -> TypeInfoView {
    TypeInfoView {
        id,
        display: fact.display@,
        kind: type_kind(fact.data),
        symbol_id: match type_symbol(fact.data) {
            Some(symbol) => text_under(symbols, symbol),
            None => None,
        },
        element_types: type_elements(fact.data).map_values(|n: u32| id_in(ids, n)),
        return_type: match type_result(fact.data) {
            Some(n) => Some(id_in(ids, n)),
            None => None,
        },
    }
}

/// The list with a type and all that it is made of. The types that it is made of come first.
pub open spec fn with_type(
    types: Seq<TypeFact>,
    symbols: Map<SymbolRef, Seq<char>>,
    number: u32,
    listed: ListedView,
) -> ListedView
    decreases unlisted(listed.ids, types.len()), 0int, 0int,
{
    if listed.ids.contains_key(number) || number >= types.len() || types.len() > 0x1_0000_0000 {
        listed
    } else {
        let id = next_id(listed.ids);
        proof {
            lemma_unlisted_insert(listed.ids, number, id, types.len());
        }
        let fact = types[number as int];
        let inner = with_types_from(
            types,
            symbols,
            type_parts(fact.data),
            0,
            ListedView { ids: listed.ids.insert(number, id), ..listed },
        );
        ListedView {
            ids: inner.ids,
            types: inner.types.push(type_info(fact, id, symbols, inner.ids)),
        }
    }
}

/// The list with types from position `i` on.
pub open spec fn with_types_from(
    types: Seq<TypeFact>,
    symbols: Map<SymbolRef, Seq<char>>,
    numbers: Seq<u32>,
    i: int,
    listed: ListedView,
) -> ListedView
    decreases unlisted(listed.ids, types.len()), 1int, numbers.len() - i,
{
    if 0 <= i < numbers.len() {
        let next = with_type(types, symbols, numbers[i], listed);
        if unlisted(next.ids, types.len()) <= unlisted(listed.ids, types.len()) {
            with_types_from(types, symbols, numbers, i + 1, next)
        } else {
            next
        }
    } else {
        listed
    }
}

/// Listing types keeps the ids that there are, and gives each of the types an id.
pub proof fn lemma_with_type(
    types: Seq<TypeFact>,
    symbols: Map<SymbolRef, Seq<char>>,
    number: u32,
    listed: ListedView,
)
    requires
        types.len() <= 0x1_0000_0000,
    ensures
        ({
            let after = with_type(types, symbols, number, listed);
            &&& forall|k: u32| #[trigger]
                listed.ids.contains_key(k) ==> after.ids.contains_key(k) && after.ids[k]
                    == listed.ids[k]
            &&& number < types.len() ==> after.ids.contains_key(number)
            &&& unlisted(after.ids, types.len()) <= unlisted(listed.ids, types.len())
            &&& listed.ids.dom().finite() ==> after.ids.dom().finite()
        }),
    decreases unlisted(listed.ids, types.len()), 0int, 0int,
{
    if !(listed.ids.contains_key(number) || number >= types.len()) {
        let id = next_id(listed.ids);
        lemma_unlisted_insert(listed.ids, number, id, types.len());
        let entered = ListedView { ids: listed.ids.insert(number, id), ..listed };
        let parts = type_parts(types[number as int].data);
        lemma_with_types_from(types, symbols, parts, 0, entered);
        let after = with_type(types, symbols, number, listed);
        assert(entered.ids.contains_key(number));
        assert forall|k: u32| #[trigger] listed.ids.contains_key(k) implies after.ids.contains_key(
            k,
        ) && after.ids[k] == listed.ids[k] by {
            assert(entered.ids.contains_key(k));
        }
    }
}

pub proof fn lemma_with_types_from(
    types: Seq<TypeFact>,
    symbols: Map<SymbolRef, Seq<char>>,
    numbers: Seq<u32>,
    i: int,
    listed: ListedView,
)
    requires
        types.len() <= 0x1_0000_0000,
        0 <= i <= numbers.len(),
    ensures
        ({
            let after = with_types_from(types, symbols, numbers, i, listed);
            &&& forall|k: u32| #[trigger]
                listed.ids.contains_key(k) ==> after.ids.contains_key(k) && after.ids[k]
                    == listed.ids[k]
            &&& forall|j: int|
                i <= j < numbers.len() && numbers[j] < types.len() ==> after.ids.contains_key(
                    #[trigger] numbers[j],
                )
            &&& unlisted(after.ids, types.len()) <= unlisted(listed.ids, types.len())
            &&& listed.ids.dom().finite() ==> after.ids.dom().finite()
        }),
    decreases unlisted(listed.ids, types.len()), 1int, numbers.len() - i,
{
    if i < numbers.len() {
        let next = with_type(types, symbols, numbers[i], listed);
        lemma_with_type(types, symbols, numbers[i], listed);
        lemma_with_types_from(types, symbols, numbers, i + 1, next);
        let after = with_types_from(types, symbols, numbers, i, listed);
        assert forall|k: u32| #[trigger] listed.ids.contains_key(k) implies after.ids.contains_key(
            k,
        ) && after.ids[k] == listed.ids[k] by {
            assert(next.ids.contains_key(k));
        }
        assert forall|j: int|
            i <= j < numbers.len() && numbers[j] < types.len() implies after.ids.contains_key(
            #[trigger] numbers[j],
        ) by {
            if j == i {
                assert(next.ids.contains_key(numbers[i]));
            }
        }
    }
}

/// An id is that of some type.
pub open spec fn is_named(ids: Map<u32, Seq<char>>, id: Seq<char>) -> bool {
    exists|k: u32| #[trigger] ids.contains_key(k) && ids[k] == id
}

/// A type with an id is listed.
pub open spec fn is_in_list(types: Seq<TypeInfoView>, id: Seq<char>) -> bool {
    exists|i: int| 0 <= i < types.len() && (#[trigger] types[i]).id == id
}

/// Every type with an id is listed, but for those that are not finished.
pub open spec fn lists_all(listed: ListedView, unfinished: Set<u32>) -> bool {
    forall|k: u32| #[trigger]
        listed.ids.contains_key(k) && !unfinished.contains(k) ==> is_in_list(
            listed.types,
            listed.ids[k],
        )
}

/// The types that a listed type mentions have ids.
pub open spec fn mentions_named(listed: ListedView) -> bool {
    forall|i: int|
        0 <= i < listed.types.len() ==> {
            &&& forall|j: int|
                0 <= j < (#[trigger] listed.types[i]).element_types.len() ==> is_named(
                    listed.ids,
                    #[trigger] listed.types[i].element_types[j],
                )
            &&& listed.types[i].return_type matches Some(id) ==> is_named(listed.ids, id)
        }
}

/// An id stays that of a type when more types get ids.
pub proof fn lemma_still_named(a: Map<u32, Seq<char>>, b: Map<u32, Seq<char>>, id: Seq<char>)
    requires
        forall|k: u32| #[trigger] a.contains_key(k) ==> b.contains_key(k) && b[k] == a[k],
        is_named(a, id),
    ensures
        is_named(b, id),
{
    let k = choose|k: u32| #[trigger] a.contains_key(k) && a[k] == id;
    assert(b.contains_key(k));
}

proof fn lemma_list_with_type(
    types: Seq<TypeFact>,
    symbols: Map<SymbolRef, Seq<char>>,
    number: u32,
    listed: ListedView,
    unfinished: Set<u32>,
)
    requires
        types.len() <= 0x1_0000_0000,
        types_closed(types),
        lists_all(listed, unfinished),
        mentions_named(listed),
    ensures
        lists_all(with_type(types, symbols, number, listed), unfinished),
        mentions_named(with_type(types, symbols, number, listed)),
    decreases unlisted(listed.ids, types.len()), 0int, 0int,
{
    if !(listed.ids.contains_key(number) || number >= types.len()) {
        let id = next_id(listed.ids);
        lemma_unlisted_insert(listed.ids, number, id, types.len());
        let entered = ListedView { ids: listed.ids.insert(number, id), ..listed };
        let fact = types[number as int];
        let parts = type_parts(fact.data);
        let more = unfinished.insert(number);
        assert forall|k: u32| #[trigger] entered.ids.contains_key(k) && !more.contains(
            k,
        ) implies is_in_list(entered.types, entered.ids[k]) by {
            assert(listed.ids.contains_key(k));
        }
        assert forall|k: u32| #[trigger] listed.ids.contains_key(k) implies entered.ids.contains_key(
            k,
        ) && entered.ids[k] == listed.ids[k] by {}
        lemma_mentions_grow(listed, entered);
        lemma_with_types_from(types, symbols, parts, 0, entered);
        lemma_list_with_types_from(types, symbols, parts, 0, entered, more);
        let inner = with_types_from(types, symbols, parts, 0, entered);
        let after = with_type(types, symbols, number, listed);
        let info = type_info(fact, id, symbols, inner.ids);
        assert(after.types == inner.types.push(info));
        assert(entered.ids.contains_key(number));
        assert(after.ids[number] == id);
        assert forall|k: u32| #[trigger] after.ids.contains_key(k) && !unfinished.contains(
            k,
        ) implies is_in_list(after.types, after.ids[k]) by {
            if k == number {
                assert(after.types[inner.types.len() as int].id == id);
            } else {
                assert(inner.ids.contains_key(k) && !more.contains(k));
                let i = choose|i: int|
                    0 <= i < inner.types.len() && (#[trigger] inner.types[i]).id == inner.ids[k];
                assert(after.types[i] == inner.types[i]);
            }
        }
        assert forall|i: int| 0 <= i < after.types.len() implies {
            &&& forall|j: int|
                0 <= j < (#[trigger] after.types[i]).element_types.len() ==> is_named(
                    after.ids,
                    #[trigger] after.types[i].element_types[j],
                )
            &&& after.types[i].return_type matches Some(id) ==> is_named(after.ids, id)
        } by {
            if i < inner.types.len() {
                assert(after.types[i] == inner.types[i]);
            } else {
                assert(after.types[i] == info);
                let elements = type_elements(fact.data);
                assert forall|j: int| 0 <= j < info.element_types.len() implies is_named(
                    after.ids,
                    #[trigger] info.element_types[j],
                ) by {
                    assert(parts[j] == elements[j]);
                    assert(type_parts(types[number as int].data)[j] < types.len());
                    assert(inner.ids.contains_key(parts[j]));
                }
                match type_result(fact.data) {
                    Some(result) => {
                        let last = elements.len() as int;
                        assert(parts[last] == result);
                        assert(type_parts(types[number as int].data)[last] < types.len());
                        assert(inner.ids.contains_key(parts[last]));
                    },
                    None => {},
                }
            }
        }
    }
}

proof fn lemma_mentions_grow(a: ListedView, b: ListedView)
    requires
        mentions_named(a),
        a.types == b.types,
        forall|k: u32| #[trigger]
            a.ids.contains_key(k) ==> b.ids.contains_key(k) && b.ids[k] == a.ids[k],
    ensures
        mentions_named(b),
{
    assert forall|i: int| 0 <= i < b.types.len() implies {
        &&& forall|j: int|
            0 <= j < (#[trigger] b.types[i]).element_types.len() ==> is_named(
                b.ids,
                #[trigger] b.types[i].element_types[j],
            )
        &&& b.types[i].return_type matches Some(id) ==> is_named(b.ids, id)
    } by {
        assert(a.types[i] == b.types[i]);
        assert forall|j: int| 0 <= j < b.types[i].element_types.len() implies is_named(
            b.ids,
            #[trigger] b.types[i].element_types[j],
        ) by {
            assert(is_named(a.ids, a.types[i].element_types[j]));
            lemma_still_named(a.ids, b.ids, a.types[i].element_types[j]);
        }
        match b.types[i].return_type {
            Some(id) => {
                lemma_still_named(a.ids, b.ids, id);
            },
            None => {},
        }
    }
}

proof fn lemma_list_with_types_from(
    types: Seq<TypeFact>,
    symbols: Map<SymbolRef, Seq<char>>,
    numbers: Seq<u32>,
    i: int,
    listed: ListedView,
    unfinished: Set<u32>,
)
    requires
        types.len() <= 0x1_0000_0000,
        types_closed(types),
        0 <= i <= numbers.len(),
        lists_all(listed, unfinished),
        mentions_named(listed),
    ensures
        lists_all(with_types_from(types, symbols, numbers, i, listed), unfinished),
        mentions_named(with_types_from(types, symbols, numbers, i, listed)),
    decreases unlisted(listed.ids, types.len()), 1int, numbers.len() - i,
{
    if i < numbers.len() {
        let next = with_type(types, symbols, numbers[i], listed);
        lemma_with_type(types, symbols, numbers[i], listed);
        lemma_list_with_type(types, symbols, numbers[i], listed, unfinished);
        lemma_list_with_types_from(types, symbols, numbers, i + 1, next, unfinished);
    }
}

/// Where every type with an id is listed and mentions only types with ids, this stays so when
/// another type is listed: no listed type leads to one that is not.
pub proof fn type_list_stays_closed(
    types: Seq<TypeFact>,
    symbols: Map<SymbolRef, Seq<char>>,
    number: u32,
    listed: ListedView,
)
    requires
        types.len() <= 0x1_0000_0000,
        types_closed(types),
        lists_all(listed, Set::empty()),
        mentions_named(listed),
    ensures
        lists_all(with_type(types, symbols, number, listed), Set::empty()),
        mentions_named(with_type(types, symbols, number, listed)),
{
    lemma_list_with_type(types, symbols, number, listed, Set::empty());
}

/// Lists the types of a project and gives them ids.
#[derive(Debug)]
pub struct TypeBuilder {
    pub ids: Table<u32, String>,
    pub types: Vec<TypeInfo>,
}

impl View for TypeBuilder {
    type V = ListedView;

    open spec fn view(&self) -> ListedView {
        ListedView { ids: self.ids@, types: views(self.types@) }
    }
}

impl TypeData {
    fn kind(&self) -> (r: &'static str)
        ensures
            r@ == type_kind(*self),
    {
        match self {
            TypeData::Struct { .. } => "struct",
            TypeData::Enum { .. } => "enum",
            TypeData::TypeAlias { .. } => "typeAlias",
            TypeData::Tensor(_) => "tensor",
            TypeData::Tuple(_) => "tuple",
            TypeData::Array(_) => "array",
            TypeData::Union(_) => "union",
            TypeData::Function { .. } => "function",
            TypeData::TypeParameter => "typeParameter",
            TypeData::Generic { .. } => "generic",
            TypeData::Builtin => "builtin",
            TypeData::Int => "integer",
            TypeData::Bool => "boolean",
            TypeData::Cell => "cell",
            TypeData::Slice => "slice",
            TypeData::Builder => "builder",
            TypeData::Continuation => "continuation",
            TypeData::Address => "address",
            TypeData::Mapping { .. } => "map",
            TypeData::Bits => "bits",
            TypeData::Bytes => "bytes",
            TypeData::UntypedTuple => "untypedTuple",
            TypeData::Null => "null",
            TypeData::Void => "void",
            TypeData::Never => "never",
            TypeData::Auto => "auto",
            TypeData::Undefined => "undefined",
            TypeData::Unknown => "unknown",
        }
    }

    fn symbol(&self) -> (r: Option<SymbolRef>)
        ensures
            r == type_symbol(*self),
    {
        match self {
            TypeData::Struct { symbol, .. } => Some(*symbol),
            TypeData::Enum { symbol } => Some(*symbol),
            TypeData::TypeAlias { symbol, .. } => Some(*symbol),
            _ => None,
        }
    }

    fn elements(&self) -> (r: Vec<u32>)
        ensures
            r@ == type_elements(*self),
    {
        match self {
            TypeData::Struct { arguments, .. } => with_front(None, arguments),
            TypeData::TypeAlias { inner, arguments, .. } => with_front(Some(*inner), arguments),
            TypeData::Tensor(items) => with_front(None, items),
            TypeData::Tuple(items) => with_front(None, items),
            TypeData::Array(item) => vec![*item],
            TypeData::Union(items) => with_front(None, items),
            TypeData::Function { parameters, .. } => with_front(None, parameters),
            TypeData::Generic { inner, arguments } => with_front(Some(*inner), arguments),
            TypeData::Mapping { key, value } => vec![*key, *value],
            _ => Vec::new(),
        }
    }

    fn result(&self) -> (r: Option<u32>)
        ensures
            r == type_result(*self),
    {
        match self {
            TypeData::Function { result, .. } => Some(*result),
            _ => None,
        }
    }

    /// The types that the type is made of, and what it returns.
    pub fn parts(&self) -> (r: Vec<u32>)
        ensures
            r@ == type_parts(*self),
    {
        let mut out = self.elements();
        match self.result() {
            Some(result) => {
                out.push(result);
            },
            None => {},
        }
        out
    }
}

fn with_front(front: Option<u32>, items: &Vec<u32>) -> (r: Vec<u32>)
    ensures
        r@ == (match front {
            Some(first) => seq![first] + items@,
            None => items@,
        }),
{
    let ghost start: Seq<u32> = match front {
        Some(first) => seq![first],
        None => Seq::empty(),
    };
    let mut out: Vec<u32> = Vec::new();
    match front {
        Some(first) => {
            out.push(first);
        },
        None => {},
    }
    assert(out@ =~= start);
    let n: usize = items.len();
    let mut i: usize = 0;
    while i < n
        invariant
            i <= n,
            n == items@.len(),
            out@ =~= start + items@.take(i as int),
        decreases n - i,
    {
        out.push(items[i]);
        i += 1;
    }
    assert(items@.take(n as int) =~= items@);
    assert(Seq::<u32>::empty() + items@ =~= items@);
    out
}

/// Whether the parts of each type are types.
pub fn are_types_closed(types: &Vec<TypeFact>) -> (r: bool)
    ensures
        r == types_closed(types@),
{
    let n: usize = types.len();
    let mut i: usize = 0;
    while i < n
        invariant
            i <= n,
            n == types@.len(),
            forall|k: int, j: int|
                0 <= k < i && 0 <= j < type_parts(types@[k].data).len() ==> #[trigger] type_parts(
                    types@[k].data,
                )[j] < n,
        decreases n - i,
    {
        let parts = types[i].data.parts();
        let m: usize = parts.len();
        let mut j: usize = 0;
        while j < m
            invariant
                j <= m,
                i < n,
                n == types@.len(),
                m == parts@.len(),
                parts@ == type_parts(types@[i as int].data),
                forall|k: int| 0 <= k < j ==> #[trigger] parts@[k] < n,
            decreases m - j,
        {
            if parts[j] as usize >= n {
                assert(type_parts(types@[i as int].data)[j as int] >= n);
                return false;
            }
            j += 1;
        }
        i += 1;
    }
    true
}

impl TypeBuilder {
    pub fn new() -> (r: Self)
        ensures
            r@ == (ListedView { ids: Map::empty(), types: Seq::empty() }),
    {
        let r = TypeBuilder { ids: Table::new(), types: Vec::new() };
        assert(r@ =~= ListedView { ids: Map::empty(), types: Seq::empty() });
        r
    }

    fn id_of(&self, number: u32) -> (r: String)
        ensures
            r@ == id_in(self.ids@, number),
    {
        match self.ids.get(&number) {
            Some(id) => id.clone(),
            None => "".to_owned(),
        }
    }

    /// Lists a type and all that it is made of, and gives its id.
    pub fn convert(
        &mut self,
        types: &Vec<TypeFact>,
        symbols: &Table<SymbolRef, String>,
        number: u32,
    ) -> (r: String)
        requires
            types@.len() <= 0x1_0000_0000,
        ensures
            final(self)@ == with_type(types@, symbols@, number, old(self)@),
            r@ == id_in(final(self).ids@, number),
        decreases unlisted(old(self).ids@, types@.len()),
    {
        let ghost start = self@;
        if self.ids.contains_key(&number) || number as usize >= types.len() {
            return self.id_of(number);
        }
        let fact = &types[number as usize];
        let mut id = "t".to_owned();
        let count: usize = self.ids.len();
        proof {
            self.ids.sequence().unique_seq_to_set();
        }
        push_decimal(&mut id, count as u64);
        assert(id@ == next_id(start.ids));
        proof {
            lemma_unlisted_insert(start.ids, number, id@, types@.len());
        }
        self.ids.insert(number, id.clone());
        let ghost entered = self@;
        let parts = fact.data.parts();
        let ghost all = type_parts(fact.data);
        let n: usize = parts.len();
        let mut i: usize = 0;
        while i < n
            invariant
                i <= n,
                n == parts@.len(),
                parts@ == all,
                types@.len() <= 0x1_0000_0000,
                unlisted(self.ids@, types@.len()) <= unlisted(entered.ids, types@.len()),
                unlisted(entered.ids, types@.len()) < unlisted(start.ids, types@.len()),
                start == old(self)@,
                with_types_from(types@, symbols@, all, 0, entered) == with_types_from(
                    types@,
                    symbols@,
                    all,
                    i as int,
                    self@,
                ),
            decreases n - i,
        {
            proof {
                lemma_with_type(types@, symbols@, parts@[i as int], self@);
            }
            let _id = self.convert(types, symbols, parts[i]);
            i += 1;
        }
        let ghost inner = self@;
        proof {
            lemma_with_types_from(types@, symbols@, all, 0, entered);
            assert(entered.ids.contains_key(number));
        }
        let element_numbers = fact.data.elements();
        let m: usize = element_numbers.len();
        let mut element_types: Vec<String> = Vec::new();
        let ghost goal = type_elements(fact.data).map_values(|k: u32| id_in(inner.ids, k));
        let mut j: usize = 0;
        while j < m
            invariant
                j <= m,
                m == element_numbers@.len(),
                element_numbers@ == type_elements(fact.data),
                self@ == inner,
                goal == type_elements(fact.data).map_values(|k: u32| id_in(inner.ids, k)),
                element_types@.len() == j,
                forall|k: int| 0 <= k < j ==> (#[trigger] element_types@[k])@ == goal[k],
            decreases m - j,
        {
            element_types.push(self.id_of(element_numbers[j]));
            j += 1;
        }
        assert(views(element_types@) =~= goal);
        let return_type = match fact.data.result() {
            Some(result) => Some(self.id_of(result)),
            None => None,
        };
        let symbol_id = match fact.data.symbol() {
            Some(symbol) => match symbols.get(&symbol) {
                Some(id) => Some(id.clone()),
                None => None,
            },
            None => None,
        };
        let info = TypeInfo {
            id: id.clone(),
            display: fact.display.clone(),
            kind: fact.data.kind().to_owned(),
            symbol_id,
            element_types,
            return_type,
        };
        assert(info@ =~= type_info(*fact, id@, symbols@, inner.ids));
        self.types.push(info);
        id
    }
}

} // verus!
