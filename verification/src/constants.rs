//! The values of constants and enum members.
use crate::facts::{
    all_global_symbols, file_symbols, symbol_pointees, ConstantFact, Evaluated, FileFacts,
    SymbolFact, SymbolKind,
};
use crate::ids::SymbolRef;
use crate::model::{ConstantValue, ConstantValueView, SymbolConstantValue, SymbolConstantValueView};
use crate::scope::text_under;
use crate::sort::{sort_stably, stable_sorted};
use crate::tables::Table;
use crate::text::{opt_view, views};
use vstd::prelude::*;
use vstd::string::*;

verus! {

broadcast use crate::text::group_views;

/// The value of a constant.
pub open spec fn constant_of(fact: ConstantFact) -> ConstantValueView {
    let display = fact.display@;
    match fact.value {
        Evaluated::Int(value) => ConstantValueView::Int { value: value@, display },
        Evaluated::Bool(value) => ConstantValueView::Bool { value, display },
        Evaluated::Text(value) => ConstantValueView::Text { value: value@, display },
        Evaluated::Overflow => ConstantValueView::Overflow { display },
        Evaluated::Unknown => ConstantValueView::Unknown { display },
    }
}

/// The value of a constant.
pub fn constant_value(fact: &ConstantFact) -> (r: ConstantValue)
    ensures
        r@ == constant_of(*fact),
{
    let display = fact.display.clone();
    match &fact.value {
        Evaluated::Int(value) => ConstantValue::Int { value: value.clone(), display },
        Evaluated::Bool(value) => ConstantValue::Bool { value: *value, display },
        Evaluated::Text(value) => ConstantValue::Text { value: value.clone(), display },
        Evaluated::Overflow => ConstantValue::Overflow { display },
        Evaluated::Unknown => ConstantValue::Unknown { display },
    }
}

/// The collection key that a value selects, where it selects one.
pub open spec fn key_of_value(value: Evaluated) -> Option<Seq<char>> {
    match value {
        Evaluated::Int(value) => Some("int:"@ + value@),
        Evaluated::Bool(value) => Some(
            "bool:"@ + if value {
                "true"@
            } else {
                "false"@
            },
        ),
        Evaluated::Text(value) => Some("string:"@ + value@),
        Evaluated::Overflow | Evaluated::Unknown => None,
    }
}

/// The collection key that a value selects, where it selects one.
pub fn constant_collection_key(value: &Evaluated) -> (r: Option<String>)
    ensures
        opt_view(r) == key_of_value(*value),
{
    match value {
        Evaluated::Int(value) => {
            let mut key = "int:".to_owned();
            key.append(value.as_str());
            Some(key)
        },
        Evaluated::Bool(value) => {
            let mut key = "bool:".to_owned();
            key.append(
                if *value {
                    "true"
                } else {
                    "false"
                },
            );
            Some(key)
        },
        Evaluated::Text(value) => {
            let mut key = "string:".to_owned();
            key.append(value.as_str());
            Some(key)
        },
        Evaluated::Overflow | Evaluated::Unknown => None,
    }
}

/// What the constant or the enum member that a symbol declares evaluates to.
pub open spec fn evaluated(symbol: SymbolFact) -> Option<ConstantFact> {
    match symbol.kind {
        SymbolKind::Constant | SymbolKind::EnumMember => symbol.constant,
        _ => None,
    }
}

impl SymbolFact {
    fn evaluated(&self) -> (r: Option<&ConstantFact>)
        ensures
            r is Some <==> evaluated(*self) is Some,
            r matches Some(fact) ==> evaluated(*self) == Some(*fact),
    {
        match self.kind {
            SymbolKind::Constant | SymbolKind::EnumMember => match &self.constant {
                Some(fact) => Some(fact),
                None => None,
            },
            _ => None,
        }
    }
}

/// The values of the symbols from position `i` on.
pub open spec fn values_of_symbols(
    symbols: Seq<SymbolFact>,
    ids: Map<SymbolRef, Seq<char>>,
    i: int,
    acc: Seq<SymbolConstantValueView>,
) -> Seq<SymbolConstantValueView>
    decreases symbols.len() - i,
{
    if 0 <= i < symbols.len() {
        let next = match (evaluated(symbols[i]), text_under(ids, symbols[i].id)) {
            (Some(fact), Some(id)) => acc.push(
                SymbolConstantValueView { symbol_id: id, value: constant_of(fact) },
            ),
            _ => acc,
        };
        values_of_symbols(symbols, ids, i + 1, next)
    } else {
        acc
    }
}

/// The values of the symbols of the files from position `i` on.
pub open spec fn values_from(
    files: Seq<FileFacts>,
    ids: Map<SymbolRef, Seq<char>>,
    i: int,
    acc: Seq<SymbolConstantValueView>,
) -> Seq<SymbolConstantValueView>
    decreases files.len() - i,
{
    if 0 <= i < files.len() {
        values_from(files, ids, i + 1, values_of_symbols(file_symbols(files[i]), ids, 0, acc))
    } else {
        acc
    }
}

/// The values of constants and enum members, in the order of their symbols.
pub open spec fn constant_values(
    files: Seq<FileFacts>,
    ids: Map<SymbolRef, Seq<char>>,
) -> Seq<SymbolConstantValueView> {
    stable_sorted::<SymbolConstantValue>(values_from(files, ids, 0, Seq::empty()))
}

/// The values of constants and enum members, in the order of their symbols.
pub fn collect_constant_values(files: &Vec<FileFacts>, ids: &Table<SymbolRef, String>) -> (r: Vec<
    SymbolConstantValue,
>)
    ensures
        views(r@) == constant_values(files@, ids@),
{
    let mut out: Vec<SymbolConstantValue> = Vec::new();
    let n: usize = files.len();
    let mut i: usize = 0;
    while i < n
        invariant
            i <= n,
            n == files@.len(),
            values_from(files@, ids@, 0, Seq::empty()) == values_from(
                files@,
                ids@,
                i as int,
                views(out@),
            ),
        decreases n - i,
    {
        let symbols = all_global_symbols(&files[i]);
        let ghost all = symbol_pointees(symbols@);
        let ghost start = views(out@);
        let m: usize = symbols.len();
        let mut j: usize = 0;
        while j < m
            invariant
                j <= m,
                m == symbols@.len(),
                all == symbol_pointees(symbols@),
                values_of_symbols(all, ids@, 0, start) == values_of_symbols(
                    all,
                    ids@,
                    j as int,
                    views(out@),
                ),
            decreases m - j,
        {
            let symbol = symbols[j];
            assert(all[j as int] == *symbol);
            match (symbol.evaluated(), ids.get(&symbol.id)) {
                (Some(fact), Some(id)) => {
                    out.push(
                        SymbolConstantValue { symbol_id: id.clone(), value: constant_value(fact) },
                    );
                },
                _ => {},
            }
            j += 1;
        }
        i += 1;
    }
    sort_stably(out)
}

/// The collection keys with those of the symbols from position `i` on.
pub open spec fn keys_of_symbols(
    symbols: Seq<SymbolFact>,
    i: int,
    acc: Map<SymbolRef, Seq<char>>,
) -> Map<SymbolRef, Seq<char>>
    decreases symbols.len() - i,
{
    if 0 <= i < symbols.len() {
        let next = match evaluated(symbols[i]) {
            Some(fact) => match key_of_value(fact.value) {
                Some(key) => acc.insert(symbols[i].id, key),
                None => acc,
            },
            None => acc,
        };
        keys_of_symbols(symbols, i + 1, next)
    } else {
        acc
    }
}

/// The collection keys with those of the files from position `i` on.
pub open spec fn constant_keys_from(
    files: Seq<FileFacts>,
    i: int,
    acc: Map<SymbolRef, Seq<char>>,
) -> Map<SymbolRef, Seq<char>>
    decreases files.len() - i,
{
    if 0 <= i < files.len() {
        constant_keys_from(files, i + 1, keys_of_symbols(file_symbols(files[i]), 0, acc))
    } else {
        acc
    }
}

/// The collection keys that constants and enum members select.
pub fn collect_constant_keys(files: &Vec<FileFacts>) -> (r: Table<SymbolRef, String>)
    ensures
        r@ == constant_keys_from(files@, 0, Map::empty()),
{
    let mut out: Table<SymbolRef, String> = Table::new();
    let n: usize = files.len();
    let mut i: usize = 0;
    while i < n
        invariant
            i <= n,
            n == files@.len(),
            constant_keys_from(files@, 0, Map::empty()) == constant_keys_from(
                files@,
                i as int,
                out@,
            ),
        decreases n - i,
    {
        let symbols = all_global_symbols(&files[i]);
        let ghost all = symbol_pointees(symbols@);
        let ghost start = out@;
        let m: usize = symbols.len();
        let mut j: usize = 0;
        while j < m
            invariant
                j <= m,
                m == symbols@.len(),
                all == symbol_pointees(symbols@),
                keys_of_symbols(all, 0, start) == keys_of_symbols(all, j as int, out@),
            decreases m - j,
        {
            let symbol = symbols[j];
            assert(all[j as int] == *symbol);
            match symbol.evaluated() {
                Some(fact) => match constant_collection_key(&fact.value) {
                    Some(key) => {
                        out.insert(symbol.id, key);
                    },
                    None => {},
                },
                None => {},
            }
            j += 1;
        }
        i += 1;
    }
    out
}

} // verus!
