//! What a project declares, and how it is found in the files of a project.
use crate::facts::{
    file_from, file_symbols, lemma_found_file, lemma_nested, lemma_own_file, nested, nested_from,
    symbols_from, with_nested, FileFacts, LocalFact, ProjectFacts, SymbolFact,
};
use crate::ids::{LocalRef, SymbolRef};
use crate::promises::files_in_order;
use crate::sort::sorting_keeps_items;
use crate::symbols::{ids_from, local_ids_from, local_ids_of, symbol_ids_from};
use crate::text::decimal;
use vstd::prelude::*;

verus! {

/// The symbol at the end of a path: a position among the symbols of a file, then positions among
/// the fields of a struct or the members of an enum.
pub open spec fn declared_at(symbols: Seq<SymbolFact>, path: Seq<int>) -> Option<SymbolFact>
    decreases path.len(),
{
    if path.len() == 0 || !(0 <= path[0] < symbols.len()) {
        None
    } else if path.len() == 1 {
        Some(symbols[path[0]])
    } else if symbols[path[0]].kind is Struct || symbols[path[0]].kind is Enum {
        declared_at(symbols[path[0]].children@, path.drop_first())
    } else {
        None
    }
}

/// A file declares a symbol.
pub open spec fn declares(file: FileFacts, symbol: SymbolFact) -> bool {
    exists|path: Seq<int>| #[trigger] declared_at(file.symbols@, path) == Some(symbol)
}

/// A file defines a local.
pub open spec fn defines(file: FileFacts, local: LocalFact) -> bool {
    file.resolved matches Some(facts) && facts.locals@.contains(local)
}

/// Files, symbols and locals are known apart: files by their numbers and by their paths, symbols
/// and locals by the numbers of their files.
pub open spec fn known_apart(files: Seq<FileFacts>) -> bool {
    &&& forall|i: int, j: int|
        0 <= i < files.len() && 0 <= j < files.len() && (#[trigger] files[i]).id == (
        #[trigger] files[j]).id ==> files[i] == files[j]
    &&& forall|i: int, j: int|
        0 <= i < files.len() && 0 <= j < files.len() && (#[trigger] files[i]).text.path@ == (
        #[trigger] files[j]).text.path@ ==> files[i] == files[j]
    &&& forall|i: int, s: SymbolFact|
        0 <= i < files.len() && #[trigger] declares(files[i], s) ==> s.id.file == files[i].id
    &&& forall|i: int, l: LocalFact|
        0 <= i < files.len() && #[trigger] defines(files[i], l) ==> l.id.file == files[i].id
}

proof fn lemma_symbols_from(
    symbols: Seq<SymbolFact>,
    i: int,
    acc: Seq<SymbolFact>,
    s: SymbolFact,
)
    requires
        0 <= i,
    ensures
        symbols_from(symbols, i, acc).contains(s) <==> acc.contains(s) || exists|j: int|
            i <= j < symbols.len() && #[trigger] with_nested(symbols[j]).contains(s),
    decreases symbols.len() - i,
{
    if i < symbols.len() {
        let more = with_nested(symbols[i]);
        lemma_symbols_from(symbols, i + 1, acc + more, s);
        if acc.contains(s) {
            let k = choose|k: int| 0 <= k < acc.len() && acc[k] == s;
            assert((acc + more)[k] == s);
        }
        if more.contains(s) {
            let k = choose|k: int| 0 <= k < more.len() && more[k] == s;
            assert((acc + more)[acc.len() + k] == s);
        }
        if (acc + more).contains(s) && !acc.contains(s) {
            let k = choose|k: int| 0 <= k < (acc + more).len() && (acc + more)[k] == s;
            if k < acc.len() {
                assert(acc[k] == s);
            } else {
                assert(more[k - acc.len()] == s);
            }
            assert(with_nested(symbols[i]).contains(s));
        }
        if exists|j: int|
            i <= j < symbols.len() && #[trigger] with_nested(symbols[j]).contains(s) {
            let j = choose|j: int|
                i <= j < symbols.len() && #[trigger] with_nested(symbols[j]).contains(s);
            if j > i {
                assert(i + 1 <= j < symbols.len() && with_nested(symbols[j]).contains(s));
            }
        }
    }
}

proof fn lemma_nested_is_a_list(symbol: SymbolFact, i: int, acc: Seq<SymbolFact>)
    ensures
        nested_from(symbol, i, acc) == symbols_from(nested(symbol), i, acc),
    decreases nested(symbol).len() - i,
{
    if 0 <= i < nested(symbol).len() {
        lemma_nested_is_a_list(symbol, i + 1, acc + with_nested(nested(symbol)[i]));
    }
}

proof fn lemma_with_nested(symbol: SymbolFact, s: SymbolFact)
    ensures
        with_nested(symbol).contains(s) <==> s == symbol || exists|j: int|
            0 <= j < nested(symbol).len() && #[trigger] with_nested(nested(symbol)[j]).contains(s),
{
    lemma_nested_is_a_list(symbol, 0, seq![symbol]);
    lemma_symbols_from(nested(symbol), 0, seq![symbol], s);
    assert(seq![symbol][0] == symbol);
}

proof fn lemma_path_is_listed(symbols: Seq<SymbolFact>, path: Seq<int>, s: SymbolFact)
    requires
        declared_at(symbols, path) == Some(s),
    ensures
        symbols_from(symbols, 0, Seq::empty()).contains(s),
    decreases path.len(),
{
    let symbol = symbols[path[0]];
    lemma_symbols_from(symbols, 0, Seq::empty(), s);
    lemma_with_nested(symbol, s);
    if path.len() > 1 {
        assert(nested(symbol) == symbol.children@);
        lemma_path_is_listed(symbol.children@, path.drop_first(), s);
        lemma_symbols_from(symbol.children@, 0, Seq::empty(), s);
        let j = choose|j: int|
            0 <= j < symbol.children@.len() && #[trigger] with_nested(
                symbol.children@[j],
            ).contains(s);
        assert(with_nested(nested(symbol)[j]).contains(s));
    }
    assert(with_nested(symbols[path[0]]).contains(s));
}

proof fn lemma_nested_has_path(symbol: SymbolFact, s: SymbolFact) -> (path: Seq<int>)
    requires
        with_nested(symbol).contains(s),
    ensures
        path.len() > 0,
        path[0] == 0,
        declared_at(seq![symbol], path) == Some(s),
    decreases symbol,
{
    lemma_with_nested(symbol, s);
    if s == symbol {
        seq![0int]
    } else {
        let j = choose|j: int|
            0 <= j < nested(symbol).len() && #[trigger] with_nested(nested(symbol)[j]).contains(s);
        lemma_nested(symbol, j);
        let inner = lemma_nested_has_path(nested(symbol)[j], s);
        let path = seq![0int, j] + inner.drop_first();
        lemma_moved(nested(symbol), j, inner);
        assert(path.drop_first() =~= seq![j] + inner.drop_first());
        path
    }
}

/// The path from a single symbol is a path from its position in a list.
proof fn lemma_moved(symbols: Seq<SymbolFact>, j: int, path: Seq<int>)
    requires
        0 <= j < symbols.len(),
        path.len() > 0,
        path[0] == 0,
    ensures
        declared_at(symbols, seq![j] + path.drop_first()) == declared_at(seq![symbols[j]], path),
{
    let moved = seq![j] + path.drop_first();
    assert(moved.drop_first() =~= path.drop_first());
    assert(moved.len() == path.len());
}

/// The symbols of a file are those at the ends of paths.
pub proof fn symbols_lie_at_paths(file: FileFacts, s: SymbolFact)
    ensures
        file_symbols(file).contains(s) <==> declares(file, s),
{
    if declares(file, s) {
        let path = choose|path: Seq<int>| #[trigger]
            declared_at(file.symbols@, path) == Some(s);
        lemma_path_is_listed(file.symbols@, path, s);
    }
    if file_symbols(file).contains(s) {
        lemma_symbols_from(file.symbols@, 0, Seq::empty(), s);
        let j = choose|j: int|
            0 <= j < file.symbols@.len() && #[trigger] with_nested(file.symbols@[j]).contains(s);
        let inner = lemma_nested_has_path(file.symbols@[j], s);
        lemma_moved(file.symbols@, j, inner);
        assert(declared_at(file.symbols@, seq![j] + inner.drop_first()) == Some(s));
    }
}

/// A file of a project in the order in which they are shown.
pub proof fn lemma_file_in_order(facts: ProjectFacts, i: int) -> (at: int)
    requires
        0 <= i < facts.files@.len(),
    ensures
        0 <= at < files_in_order(facts).len(),
        files_in_order(facts)[at] == facts.files@[i],
{
    sorting_keeps_items::<FileFacts>(facts.files@);
    assert(facts.files@.contains(facts.files@[i]));
    let files = files_in_order(facts);
    assert(files.contains(facts.files@[i]));
    choose|at: int| 0 <= at < files.len() && files[at] == facts.files@[i]
}

/// A file that is shown is one of the project.
pub proof fn lemma_file_given(facts: ProjectFacts, at: int) -> (i: int)
    requires
        0 <= at < files_in_order(facts).len(),
    ensures
        0 <= i < facts.files@.len(),
        files_in_order(facts)[at] == facts.files@[i],
{
    sorting_keeps_items::<FileFacts>(facts.files@);
    let files = files_in_order(facts);
    assert(files.contains(files[at]));
    assert(facts.files@.contains(files[at]));
    choose|i: int| 0 <= i < facts.files@.len() && files[at] == facts.files@[i]
}

/// Ordering files keeps them apart.
pub proof fn lemma_known_in_order(facts: ProjectFacts)
    requires
        known_apart(facts.files@),
    ensures
        known_apart(files_in_order(facts)),
{
    let files = files_in_order(facts);
    assert forall|i: int, j: int|
        0 <= i < files.len() && 0 <= j < files.len() && (#[trigger] files[i]).id == (
        #[trigger] files[j]).id implies files[i] == files[j] by {
        let a = lemma_file_given(facts, i);
        let b = lemma_file_given(facts, j);
        assert(facts.files@[a].id == facts.files@[b].id);
    }
    assert forall|i: int, j: int|
        0 <= i < files.len() && 0 <= j < files.len() && (#[trigger] files[i]).text.path@ == (
        #[trigger] files[j]).text.path@ implies files[i] == files[j] by {
        let a = lemma_file_given(facts, i);
        let b = lemma_file_given(facts, j);
        assert(facts.files@[a].text.path@ == facts.files@[b].text.path@);
    }
    assert forall|i: int, s: SymbolFact|
        0 <= i < files.len() && #[trigger] declares(files[i], s) implies s.id.file
        == files[i].id by {
        let a = lemma_file_given(facts, i);
        assert(declares(facts.files@[a], s));
    }
    assert forall|i: int, l: LocalFact|
        0 <= i < files.len() && #[trigger] defines(files[i], l) implies l.id.file
        == files[i].id by {
        let a = lemma_file_given(facts, i);
        assert(defines(facts.files@[a], l));
    }
}

/// The file that is found by its number is the file.
pub proof fn lemma_found_is_own(files: Seq<FileFacts>, at: int)
    requires
        known_apart(files),
        0 <= at < files.len(),
    ensures
        file_from(files, files[at].id, 0) matches Some(k) && 0 <= k < files.len() && files[k]
            == files[at],
{
    lemma_own_file(files, at);
    lemma_found_file(files, files[at].id, 0);
}

proof fn lemma_ids_from(
    path: Seq<char>,
    symbols: Seq<SymbolFact>,
    i: int,
    acc: Map<SymbolRef, Seq<char>>,
    symbol: SymbolRef,
    id: Seq<char>,
)
    requires
        0 <= i,
        acc.contains_key(symbol) ==> acc[symbol] == id,
        (exists|j: int| i <= j < symbols.len() && (#[trigger] symbols[j]).id == symbol) ==> id
            == "g:"@ + path + ":"@ + decimal(symbol.local as nat),
    ensures
        ids_from(path, symbols, i, acc).contains_key(symbol) <==> acc.contains_key(symbol)
            || exists|j: int| i <= j < symbols.len() && (#[trigger] symbols[j]).id == symbol,
        ids_from(path, symbols, i, acc).contains_key(symbol) ==> ids_from(
            path,
            symbols,
            i,
            acc,
        )[symbol] == id,
    decreases symbols.len() - i,
{
    if i < symbols.len() {
        let text = "g:"@ + path + ":"@ + decimal(symbols[i].id.local as nat);
        let next = acc.insert(symbols[i].id, text);
        if symbols[i].id == symbol {
            assert(exists|j: int| i <= j < symbols.len() && (#[trigger] symbols[j]).id == symbol);
        }
        lemma_ids_from(path, symbols, i + 1, next, symbol, id);
        if exists|j: int| i <= j < symbols.len() && (#[trigger] symbols[j]).id == symbol {
            let j = choose|j: int| i <= j < symbols.len() && (#[trigger] symbols[j]).id == symbol;
            if j > i {
                assert(i + 1 <= j < symbols.len() && symbols[j].id == symbol);
            }
        }
    }
}

proof fn lemma_symbol_ids(
    files: Seq<FileFacts>,
    at: int,
    s: SymbolFact,
    i: int,
    acc: Map<SymbolRef, Seq<char>>,
)
    requires
        known_apart(files),
        0 <= at < files.len(),
        declares(files[at], s),
        0 <= i,
        acc.contains_key(s.id) ==> acc[s.id] == "g:"@ + files[at].text.path@ + ":"@ + decimal(
            s.id.local as nat,
        ),
    ensures
        i <= at || acc.contains_key(s.id) ==> symbol_ids_from(files, i, acc).contains_key(s.id),
        symbol_ids_from(files, i, acc).contains_key(s.id) ==> symbol_ids_from(files, i, acc)[s.id]
            == "g:"@ + files[at].text.path@ + ":"@ + decimal(s.id.local as nat),
    decreases files.len() - i,
{
    if i < files.len() {
        let symbols = file_symbols(files[i]);
        let path = files[i].text.path@;
        let id = "g:"@ + files[at].text.path@ + ":"@ + decimal(s.id.local as nat);
        if exists|j: int| 0 <= j < symbols.len() && (#[trigger] symbols[j]).id == s.id {
            let j = choose|j: int| 0 <= j < symbols.len() && (#[trigger] symbols[j]).id == s.id;
            assert(symbols.contains(symbols[j]));
            symbols_lie_at_paths(files[i], symbols[j]);
            assert(declares(files[i], symbols[j]));
            assert(files[i] == files[at]);
        }
        lemma_ids_from(path, symbols, 0, acc, s.id, id);
        if i == at {
            symbols_lie_at_paths(files[i], s);
            let j = choose|j: int| 0 <= j < symbols.len() && symbols[j] == s;
            assert(symbols[j].id == s.id);
        }
        lemma_symbol_ids(files, at, s, i + 1, ids_from(path, symbols, 0, acc));
    }
}

/// The id of a declared symbol holds the path of its file and its number.
pub proof fn symbol_ids_are_known(files: Seq<FileFacts>, at: int, s: SymbolFact)
    requires
        known_apart(files),
        0 <= at < files.len(),
        declares(files[at], s),
    ensures
        symbol_ids_from(files, 0, Map::empty()).contains_key(s.id),
        symbol_ids_from(files, 0, Map::empty())[s.id] == "g:"@ + files[at].text.path@ + ":"@
            + decimal(s.id.local as nat),
{
    lemma_symbol_ids(files, at, s, 0, Map::empty());
}

proof fn lemma_local_ids_of(
    path: Seq<char>,
    locals: Seq<LocalFact>,
    i: int,
    acc: Map<LocalRef, Seq<char>>,
    local: LocalRef,
    id: Seq<char>,
)
    requires
        0 <= i,
        acc.contains_key(local) ==> acc[local] == id,
        (exists|j: int| i <= j < locals.len() && (#[trigger] locals[j]).id == local) ==> id
            == "l:"@ + path + ":"@ + decimal(local.local as nat),
    ensures
        local_ids_of(path, locals, i, acc).contains_key(local) <==> acc.contains_key(local)
            || exists|j: int| i <= j < locals.len() && (#[trigger] locals[j]).id == local,
        local_ids_of(path, locals, i, acc).contains_key(local) ==> local_ids_of(
            path,
            locals,
            i,
            acc,
        )[local] == id,
    decreases locals.len() - i,
{
    if i < locals.len() {
        let text = "l:"@ + path + ":"@ + decimal(locals[i].id.local as nat);
        let next = acc.insert(locals[i].id, text);
        if locals[i].id == local {
            assert(exists|j: int| i <= j < locals.len() && (#[trigger] locals[j]).id == local);
        }
        lemma_local_ids_of(path, locals, i + 1, next, local, id);
        if exists|j: int| i <= j < locals.len() && (#[trigger] locals[j]).id == local {
            let j = choose|j: int| i <= j < locals.len() && (#[trigger] locals[j]).id == local;
            if j > i {
                assert(i + 1 <= j < locals.len() && locals[j].id == local);
            }
        }
    }
}

proof fn lemma_local_ids(
    files: Seq<FileFacts>,
    at: int,
    l: LocalFact,
    i: int,
    acc: Map<LocalRef, Seq<char>>,
)
    requires
        known_apart(files),
        0 <= at < files.len(),
        defines(files[at], l),
        0 <= i,
        acc.contains_key(l.id) ==> acc[l.id] == "l:"@ + files[at].text.path@ + ":"@ + decimal(
            l.id.local as nat,
        ),
    ensures
        i <= at || acc.contains_key(l.id) ==> local_ids_from(files, i, acc).contains_key(l.id),
        local_ids_from(files, i, acc).contains_key(l.id) ==> local_ids_from(files, i, acc)[l.id]
            == "l:"@ + files[at].text.path@ + ":"@ + decimal(l.id.local as nat),
    decreases files.len() - i,
{
    if i < files.len() {
        let path = files[i].text.path@;
        let id = "l:"@ + files[at].text.path@ + ":"@ + decimal(l.id.local as nat);
        match files[i].resolved {
            Some(facts) => {
                let locals = facts.locals@;
                if exists|j: int| 0 <= j < locals.len() && (#[trigger] locals[j]).id == l.id {
                    let j = choose|j: int|
                        0 <= j < locals.len() && (#[trigger] locals[j]).id == l.id;
                    assert(locals.contains(locals[j]));
                    assert(defines(files[i], locals[j]));
                    assert(files[i] == files[at]);
                }
                lemma_local_ids_of(path, locals, 0, acc, l.id, id);
                if i == at {
                    let j = choose|j: int| 0 <= j < locals.len() && locals[j] == l;
                    assert(locals[j].id == l.id);
                }
                lemma_local_ids(files, at, l, i + 1, local_ids_of(path, locals, 0, acc));
            },
            None => {
                lemma_local_ids(files, at, l, i + 1, acc);
            },
        }
    }
}

/// The id of a local holds the path of its file and its number.
pub proof fn local_ids_are_known(files: Seq<FileFacts>, at: int, l: LocalFact)
    requires
        known_apart(files),
        0 <= at < files.len(),
        defines(files[at], l),
    ensures
        local_ids_from(files, 0, Map::empty()).contains_key(l.id),
        local_ids_from(files, 0, Map::empty())[l.id] == "l:"@ + files[at].text.path@ + ":"@
            + decimal(l.id.local as nat),
{
    lemma_local_ids(files, at, l, 0, Map::empty());
}

proof fn lemma_local_ids_of_declared(
    path: Seq<char>,
    locals: Seq<LocalFact>,
    i: int,
    acc: Map<LocalRef, Seq<char>>,
    local: LocalRef,
)
    requires
        0 <= i,
    ensures
        local_ids_of(path, locals, i, acc).contains_key(local) ==> acc.contains_key(local)
            || exists|l: LocalFact| #[trigger] locals.contains(l) && l.id == local,
    decreases locals.len() - i,
{
    if i < locals.len() {
        let text = "l:"@ + path + ":"@ + decimal(locals[i].id.local as nat);
        assert(locals.contains(locals[i]));
        lemma_local_ids_of_declared(path, locals, i + 1, acc.insert(locals[i].id, text), local);
    }
}

/// A local with an id is defined.
pub proof fn lemma_local_ids_declared(
    files: Seq<FileFacts>,
    i: int,
    acc: Map<LocalRef, Seq<char>>,
    local: LocalRef,
)
    requires
        0 <= i,
    ensures
        local_ids_from(files, i, acc).contains_key(local) ==> acc.contains_key(local) || exists|
            k: int,
            l: LocalFact,
        | 0 <= k < files.len() && #[trigger] defines(files[k], l) && l.id == local,
    decreases files.len() - i,
{
    if i < files.len() {
        match files[i].resolved {
            Some(facts) => {
                let path = files[i].text.path@;
                let next = local_ids_of(path, facts.locals@, 0, acc);
                lemma_local_ids_of_declared(path, facts.locals@, 0, acc, local);
                lemma_local_ids_declared(files, i + 1, next, local);
                if next.contains_key(local) && !acc.contains_key(local) {
                    let l = choose|l: LocalFact| #[trigger]
                        facts.locals@.contains(l) && l.id == local;
                    assert(defines(files[i], l));
                }
            },
            None => {
                lemma_local_ids_declared(files, i + 1, acc, local);
            },
        }
    }
}

proof fn lemma_ids_from_declared(
    path: Seq<char>,
    symbols: Seq<SymbolFact>,
    i: int,
    acc: Map<SymbolRef, Seq<char>>,
    symbol: SymbolRef,
)
    requires
        0 <= i,
    ensures
        ids_from(path, symbols, i, acc).contains_key(symbol) ==> acc.contains_key(symbol)
            || exists|s: SymbolFact| #[trigger] symbols.contains(s) && s.id == symbol,
    decreases symbols.len() - i,
{
    if i < symbols.len() {
        let text = "g:"@ + path + ":"@ + decimal(symbols[i].id.local as nat);
        assert(symbols.contains(symbols[i]));
        lemma_ids_from_declared(path, symbols, i + 1, acc.insert(symbols[i].id, text), symbol);
    }
}

/// A symbol with an id is declared.
pub proof fn lemma_symbol_ids_declared(
    files: Seq<FileFacts>,
    i: int,
    acc: Map<SymbolRef, Seq<char>>,
    symbol: SymbolRef,
)
    requires
        0 <= i,
    ensures
        symbol_ids_from(files, i, acc).contains_key(symbol) ==> acc.contains_key(symbol) || exists|
            k: int,
            s: SymbolFact,
        | 0 <= k < files.len() && #[trigger] declares(files[k], s) && s.id == symbol,
    decreases files.len() - i,
{
    if i < files.len() {
        let path = files[i].text.path@;
        let symbols = file_symbols(files[i]);
        let next = ids_from(path, symbols, 0, acc);
        lemma_ids_from_declared(path, symbols, 0, acc, symbol);
        lemma_symbol_ids_declared(files, i + 1, next, symbol);
        if next.contains_key(symbol) && !acc.contains_key(symbol) {
            let s = choose|s: SymbolFact| #[trigger] symbols.contains(s) && s.id == symbol;
            symbols_lie_at_paths(files[i], s);
            assert(declares(files[i], s));
        }
    }
}

} // verus!
