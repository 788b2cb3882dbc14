//! Laws of the constants, the source files and the diagnostics that a snapshot shows.
use crate::constants::{
    constant_keys_from, constant_of, constant_values, evaluated, key_of_value, keys_of_symbols,
    values_from, values_of_symbols,
};
use crate::diagnostics::{
    file_diagnostics_from, import_diagnostics_from, import_info, imports_from, in_workspace_from,
    lint_diagnostic, lint_diagnostics_from, parse_diagnostic, parse_diagnostics_from, primary_from,
    project_diagnostics_from, source_file, source_files_from,
};
use crate::facts::{
    file_from, file_symbols, lemma_found_file, lemma_own_file, ConstantFact, Evaluated, FileFacts,
    ImportFact, LintAnnotation, LintFact, LintFix, ParseError, ProjectFacts, SymbolFact,
};
use crate::ids::SymbolRef;
use crate::inspect::{built, indexes_of, names_of};
use crate::known::{
    declares, known_apart, lemma_found_is_own, symbol_ids_are_known, symbols_lie_at_paths,
};
use crate::listed::{id_of, lemma_in_sum, lies_at};
use crate::model::{
    ConstantValueView, Diagnostic, DiagnosticAnnotationView, DiagnosticFixView, DiagnosticView,
    ImportInfoView, SourceFileView, SymbolConstantValue, SymbolConstantValueView,
};
use crate::promises::files_in_order;
use crate::references::{all_uses, plain_diagnostic, references_of};
use crate::scope::text_under;
use crate::sort::{sorting_keeps_items, stable_sorted};
use crate::symbols::span_location;
use crate::text::{opt_view, views};
use crate::trees::id_of_node;
use crate::written::lemma_pushed;
use vstd::prelude::*;

verus! {

/// The evaluated value of a constant or of a member of an enum.
pub open spec fn constant_fact(s: SymbolFact, fact: ConstantFact) -> bool {
    (s.kind is Constant || s.kind is EnumMember) && s.constant == Some(fact)
}

/// A shown value is what a constant evaluates to.
pub open spec fn shows_value(v: ConstantValueView, fact: ConstantFact) -> bool {
    match fact.value {
        Evaluated::Int(value) => v == (ConstantValueView::Int {
            value: value@,
            display: fact.display@,
        }),
        Evaluated::Bool(value) => v == (ConstantValueView::Bool {
            value,
            display: fact.display@,
        }),
        Evaluated::Text(value) => v == (ConstantValueView::Text {
            value: value@,
            display: fact.display@,
        }),
        Evaluated::Overflow => v == (ConstantValueView::Overflow { display: fact.display@ }),
        Evaluated::Unknown => v == (ConstantValueView::Unknown { display: fact.display@ }),
    }
}

spec fn value_found(
    ids: Map<SymbolRef, Seq<char>>,
    s: SymbolFact,
    x: SymbolConstantValueView,
) -> bool {
    &&& s.kind is Constant || s.kind is EnumMember
    &&& s.constant matches Some(fact) && shows_value(x.value, fact)
    &&& ids.contains_key(s.id)
    &&& ids[s.id] == x.symbol_id
}

proof fn lemma_values_of(
    symbols: Seq<SymbolFact>,
    ids: Map<SymbolRef, Seq<char>>,
    i: int,
    acc: Seq<SymbolConstantValueView>,
    x: SymbolConstantValueView,
)
    requires
        0 <= i,
    ensures
        values_of_symbols(symbols, ids, i, acc).contains(x) <==> acc.contains(x) || exists|k: int|
            i <= k < symbols.len() && #[trigger] value_found(ids, symbols[k], x),
    decreases symbols.len() - i,
{
    if i < symbols.len() {
        let next = match (evaluated(symbols[i]), text_under(ids, symbols[i].id)) {
            (Some(fact), Some(id)) => {
                let own = SymbolConstantValueView {
                    symbol_id: id,
                    value: constant_of(fact),
                };
                lemma_pushed(acc, own);
                acc.push(own)
            },
            _ => acc,
        };
        lemma_values_of(symbols, ids, i + 1, next, x);
        assert(next.contains(x) <==> acc.contains(x) || value_found(ids, symbols[i], x));
        if exists|k: int| i <= k < symbols.len() && #[trigger] value_found(ids, symbols[k], x) {
            let k = choose|k: int|
                i <= k < symbols.len() && #[trigger] value_found(ids, symbols[k], x);
            if k > i {
                assert(i + 1 <= k < symbols.len() && value_found(ids, symbols[k], x));
            }
        }
    }
}

proof fn lemma_values(
    files: Seq<FileFacts>,
    ids: Map<SymbolRef, Seq<char>>,
    i: int,
    acc: Seq<SymbolConstantValueView>,
    x: SymbolConstantValueView,
)
    requires
        0 <= i,
    ensures
        values_from(files, ids, i, acc).contains(x) <==> acc.contains(x) || exists|
            k: int,
            s: SymbolFact,
        |
            i <= k < files.len() && #[trigger] declares(files[k], s) && value_found(ids, s, x),
    decreases files.len() - i,
{
    if i < files.len() {
        let symbols = file_symbols(files[i]);
        let next = values_of_symbols(symbols, ids, 0, acc);
        lemma_values_of(symbols, ids, 0, acc, x);
        lemma_values(files, ids, i + 1, next, x);
        if exists|j: int| 0 <= j < symbols.len() && #[trigger] value_found(ids, symbols[j], x) {
            let j = choose|j: int|
                0 <= j < symbols.len() && #[trigger] value_found(ids, symbols[j], x);
            assert(symbols.contains(symbols[j]));
            symbols_lie_at_paths(files[i], symbols[j]);
            assert(declares(files[i], symbols[j]));
        }
        if exists|k: int, s: SymbolFact|
            i <= k < files.len() && #[trigger] declares(files[k], s) && value_found(ids, s, x) {
            let (k, s) = choose|k: int, s: SymbolFact|
                i <= k < files.len() && #[trigger] declares(files[k], s) && value_found(ids, s, x);
            if k > i {
                assert(i + 1 <= k < files.len() && declares(files[k], s));
            } else {
                symbols_lie_at_paths(files[i], s);
                let j = choose|j: int| 0 <= j < symbols.len() && symbols[j] == s;
                assert(value_found(ids, symbols[j], x));
            }
        }
    }
}

/// A list shows the value of a constant under an id.
pub open spec fn lists_value(
    list: Seq<SymbolConstantValueView>,
    id: Seq<char>,
    fact: ConstantFact,
) -> bool {
    exists|x: SymbolConstantValueView| #[trigger]
        list.contains(x) && x.symbol_id == id && shows_value(x.value, fact)
}

proof fn lemma_value_listed(
    files: Seq<FileFacts>,
    ids: Map<SymbolRef, Seq<char>>,
    at: int,
    s: SymbolFact,
    fact: ConstantFact,
)
    requires
        0 <= at < files.len(),
        declares(files[at], s),
        constant_fact(s, fact),
        ids.contains_key(s.id),
    ensures
        lists_value(constant_values(files, ids), ids[s.id], fact),
{
    let x = SymbolConstantValueView {
        symbol_id: ids[s.id],
        value: constant_of(fact),
    };
    lemma_values(files, ids, 0, Seq::empty(), x);
    assert(value_found(ids, s, x));
    sorting_keeps_items::<SymbolConstantValue>(values_from(files, ids, 0, Seq::empty()));
    assert(constant_values(files, ids).contains(x));
}

/// A snapshot shows the value of each constant and of each member of an enum that was evaluated,
/// under its id.
pub proof fn constants_are_shown(
    facts: ProjectFacts,
    at: int,
    s: SymbolFact,
    fact: ConstantFact,
)
    requires
        known_apart(files_in_order(facts)),
        0 <= at < files_in_order(facts).len(),
        declares(files_in_order(facts)[at], s),
        constant_fact(s, fact),
    ensures
        built(facts) matches Ok(snapshot) ==> lists_value(
            snapshot.constant_values,
            id_of(files_in_order(facts)[at], s.id),
            fact,
        ),
{
    let files = files_in_order(facts);
    symbol_ids_are_known(files, at, s);
    lemma_value_listed(files, names_of(files, facts.types@).symbol_ids, at, s, fact);
}

/// Every value that a snapshot shows is that of a constant.
pub proof fn shown_values_are_constants(facts: ProjectFacts, x: SymbolConstantValueView)
    ensures
        built(facts) matches Ok(snapshot) ==> (snapshot.constant_values.contains(x) ==> exists|
            k: int,
            s: SymbolFact,
        |
            0 <= k < files_in_order(facts).len() && #[trigger] declares(
                files_in_order(facts)[k],
                s,
            ) && (s.kind is Constant || s.kind is EnumMember) && (s.constant matches Some(fact)
                && shows_value(x.value, fact))),
{
    let files = files_in_order(facts);
    let ids = names_of(files, facts.types@).symbol_ids;
    lemma_values(files, ids, 0, Seq::empty(), x);
    sorting_keeps_items::<SymbolConstantValue>(values_from(files, ids, 0, Seq::empty()));
}

/// The key under which a constant selects an entry of a collection.
pub open spec fn is_key_of(s: SymbolFact, key: Seq<char>) -> bool {
    &&& s.kind is Constant || s.kind is EnumMember
    &&& s.constant matches Some(fact) && (match fact.value {
        Evaluated::Int(value) => key == "int:"@ + value@,
        Evaluated::Bool(value) => key == "bool:"@ + (if value {
            "true"@
        } else {
            "false"@
        }),
        Evaluated::Text(value) => key == "string:"@ + value@,
        _ => false,
    })
}

/// A table has only keys of constants that are declared.
pub open spec fn keys_are_known(
    files: Seq<FileFacts>,
    table: Map<SymbolRef, Seq<char>>,
) -> bool {
    forall|symbol: SymbolRef| #[trigger]
        table.contains_key(symbol) ==> exists|k: int, s: SymbolFact|
            0 <= k < files.len() && #[trigger] declares(files[k], s) && s.id == symbol
                && is_key_of(s, table[symbol])
}

proof fn lemma_keys_of(
    files: Seq<FileFacts>,
    at: int,
    symbols: Seq<SymbolFact>,
    i: int,
    acc: Map<SymbolRef, Seq<char>>,
)
    requires
        0 <= at < files.len(),
        symbols == file_symbols(files[at]),
        0 <= i,
        keys_are_known(files, acc),
    ensures
        keys_are_known(files, keys_of_symbols(symbols, i, acc)),
        acc.dom().subset_of(keys_of_symbols(symbols, i, acc).dom()),
        forall|k: int, key: Seq<char>|
            i <= k < symbols.len() && #[trigger] is_key_of(symbols[k], key) ==> keys_of_symbols(
                symbols,
                i,
                acc,
            ).contains_key(symbols[k].id),
    decreases symbols.len() - i,
{
    if i < symbols.len() {
        let s = symbols[i];
        let next = match evaluated(s) {
            Some(fact) => match key_of_value(fact.value) {
                Some(key) => acc.insert(s.id, key),
                None => acc,
            },
            None => acc,
        };
        assert(symbols.contains(s));
        symbols_lie_at_paths(files[at], s);
        assert forall|symbol: SymbolRef| #[trigger] next.contains_key(symbol) implies exists|
            k: int,
            t: SymbolFact,
        |
            0 <= k < files.len() && #[trigger] declares(files[k], t) && t.id == symbol
                && is_key_of(t, next[symbol]) by {
            if symbol == s.id && next != acc {
                assert(declares(files[at], s) && is_key_of(s, next[symbol]));
            } else {
                assert(acc.contains_key(symbol));
            }
        }
        lemma_keys_of(files, at, symbols, i + 1, next);
        let after = keys_of_symbols(symbols, i, acc);
        assert forall|k: int, key: Seq<char>|
            i <= k < symbols.len() && #[trigger] is_key_of(symbols[k], key) implies after.contains_key(
            symbols[k].id,
        ) by {
            if k == i {
                assert(next.dom().contains(s.id));
                assert(after.dom().contains(s.id));
            }
        }
    }
}

proof fn lemma_keys(files: Seq<FileFacts>, i: int, acc: Map<SymbolRef, Seq<char>>)
    requires
        0 <= i,
        keys_are_known(files, acc),
    ensures
        keys_are_known(files, constant_keys_from(files, i, acc)),
        acc.dom().subset_of(constant_keys_from(files, i, acc).dom()),
        forall|k: int, s: SymbolFact, key: Seq<char>|
            #![trigger declares(files[k], s), is_key_of(s, key)]
            i <= k < files.len() && declares(files[k], s) && is_key_of(s, key)
                ==> constant_keys_from(files, i, acc).contains_key(s.id),
    decreases files.len() - i,
{
    if i < files.len() {
        let symbols = file_symbols(files[i]);
        let next = keys_of_symbols(symbols, 0, acc);
        lemma_keys_of(files, i, symbols, 0, acc);
        lemma_keys(files, i + 1, next);
        let after = constant_keys_from(files, i, acc);
        assert forall|k: int, s: SymbolFact, key: Seq<char>|
            #![trigger declares(files[k], s), is_key_of(s, key)]
            i <= k < files.len() && declares(files[k], s) && is_key_of(
                s,
                key,
            ) implies after.contains_key(s.id) by {
            if k == i {
                symbols_lie_at_paths(files[i], s);
                let j = choose|j: int| 0 <= j < symbols.len() && symbols[j] == s;
                assert(is_key_of(symbols[j], key));
                assert(next.dom().contains(s.id));
                assert(after.dom().contains(s.id));
            }
        }
    }
}

/// A constant selects the entry of what it evaluates to: a number by its decimal, a truth value
/// by its word, a text by itself.
pub proof fn constants_have_keys(files: Seq<FileFacts>)
    ensures
        keys_are_known(files, constant_keys_from(files, 0, Map::empty())),
        forall|k: int, s: SymbolFact, key: Seq<char>|
            #![trigger declares(files[k], s), is_key_of(s, key)]
            0 <= k < files.len() && declares(files[k], s) && is_key_of(s, key)
                ==> constant_keys_from(files, 0, Map::empty()).contains_key(s.id),
{
    lemma_keys(files, 0, Map::empty());
}

/// A shown import is one of a file.
pub open spec fn shows_import(
    x: ImportInfoView,
    files: Seq<FileFacts>,
    file: FileFacts,
    import: ImportFact,
) -> bool {
    &&& x.path == import.path@
    &&& lies_at(x.location, file, import.span)
    &&& match x.target_path {
        Some(path) => exists|k: int|
            0 <= k < files.len() && import.target == Some((#[trigger] files[k]).id) && path
                == files[k].text.path@,
        None => forall|k: int|
            0 <= k < files.len() ==> import.target != Some((#[trigger] files[k]).id),
    }
}

/// A shown file is a file: with its text, its root, its kind and its imports in order.
pub open spec fn shows_file(
    x: SourceFileView,
    files: Seq<FileFacts>,
    file: FileFacts,
) -> bool {
    &&& x.path == file.text.path@
    &&& x.source == file.text.source@
    &&& x.root_node == id_of_node(file.text.path@, file.text.root, 0)
    &&& x.source_kind == file.source_kind
    &&& x.imports.len() == file.imports@.len()
    &&& forall|i: int|
        0 <= i < x.imports.len() ==> shows_import(
            #[trigger] x.imports[i],
            files,
            file,
            file.imports@[i],
        )
}

proof fn lemma_imports(
    files: Seq<FileFacts>,
    file: FileFacts,
    i: int,
    acc: Seq<ImportInfoView>,
)
    requires
        0 <= i <= file.imports@.len(),
        acc.len() == i,
        forall|k: int|
            0 <= k < acc.len() ==> shows_import(#[trigger] acc[k], files, file, file.imports@[k]),
    ensures
        imports_from(files, file, i, acc).len() == file.imports@.len(),
        forall|k: int|
            0 <= k < file.imports@.len() ==> shows_import(
                #[trigger] imports_from(files, file, i, acc)[k],
                files,
                file,
                file.imports@[k],
            ),
    decreases file.imports@.len() - i,
{
    if i < file.imports@.len() {
        let import = file.imports@[i];
        let own = import_info(files, file, import);
        match import.target {
            Some(id) => {
                lemma_found_file(files, id, 0);
                if file_from(files, id, 0) is None {
                    assert forall|k: int| 0 <= k < files.len() implies import.target != Some(
                        (#[trigger] files[k]).id,
                    ) by {
                        if files[k].id == id {
                            lemma_own_file(files, k);
                        }
                    }
                }
            },
            None => {},
        }
        assert(shows_import(own, files, file, import));
        lemma_imports(files, file, i + 1, acc.push(own));
    }
}

proof fn lemma_source_files(files: Seq<FileFacts>, i: int, acc: Seq<SourceFileView>)
    requires
        0 <= i <= files.len(),
        acc.len() == i,
        forall|k: int| 0 <= k < acc.len() ==> shows_file(#[trigger] acc[k], files, files[k]),
    ensures
        source_files_from(files, i, acc).len() == files.len(),
        forall|k: int|
            0 <= k < files.len() ==> shows_file(
                #[trigger] source_files_from(files, i, acc)[k],
                files,
                files[k],
            ),
    decreases files.len() - i,
{
    if i < files.len() {
        let own = source_file(files, files[i]);
        lemma_imports(files, files[i], 0, Seq::empty());
        assert(shows_file(own, files, files[i]));
        lemma_source_files(files, i + 1, acc.push(own));
    }
}

/// A snapshot shows each file of a project as it is, in the order of their paths.
pub proof fn files_are_shown(facts: ProjectFacts)
    ensures
        built(facts) matches Ok(snapshot) ==> {
            &&& snapshot.files.len() == files_in_order(facts).len()
            &&& forall|k: int|
                0 <= k < snapshot.files.len() ==> shows_file(
                    #[trigger] snapshot.files[k],
                    files_in_order(facts),
                    files_in_order(facts)[k],
                )
        },
{
    lemma_source_files(files_in_order(facts), 0, Seq::empty());
}

/// A diagnostic without anything besides its message.
pub open spec fn is_bare(
    d: DiagnosticView,
    phase: Seq<char>,
    source: Seq<char>,
    code: Seq<char>,
    message: Seq<char>,
) -> bool {
    &&& d.phase == phase
    &&& d.source == source
    &&& d.severity == "error"@
    &&& d.code == Some(code)
    &&& d.message == message
    &&& d.help is None
    &&& d.annotations.len() == 0
    &&& d.fixes.len() == 0
}

/// A diagnostic says that a file does not parse.
pub open spec fn tells_parse_error(d: DiagnosticView, file: FileFacts, error: ParseError) -> bool {
    &&& error.missing ==> is_bare(
        d,
        "parse"@,
        "tolk-syntax"@,
        "missing-syntax"@,
        error.message@,
    )
    &&& !error.missing ==> is_bare(
        d,
        "parse"@,
        "tolk-syntax"@,
        "unexpected-syntax"@,
        error.message@,
    )
    &&& d.location matches Some(place) && place.path == file.text.path@
}

/// A diagnostic says that an import leads nowhere.
pub open spec fn tells_lost_import(d: DiagnosticView, file: FileFacts, import: ImportFact) -> bool {
    &&& is_bare(
        d,
        "project"@,
        "tolk-resolver"@,
        "unresolved-import"@,
        "cannot resolve import `"@ + import.path@ + "`"@,
    )
    &&& d.location matches Some(place) && lies_at(place, file, import.span)
}

/// An annotation is one of the linter.
pub open spec fn shows_annotation(
    x: DiagnosticAnnotationView,
    file: FileFacts,
    a: LintAnnotation,
) -> bool {
    &&& lies_at(x.location, file, a.span)
    &&& x.message == opt_view(a.message)
    &&& x.primary == a.primary
    &&& x.tags.len() == a.tags@.len()
    &&& forall|i: int|
        0 <= i < x.tags.len() ==> (a.tags@[i] is Unnecessary ==> #[trigger] x.tags[i]
            == "unnecessary"@) && (a.tags@[i] is Deprecated ==> x.tags[i] == "deprecated"@)
}

/// A fix is one of the linter.
pub open spec fn shows_fix(x: DiagnosticFixView, files: Seq<FileFacts>, f: LintFix) -> bool {
    &&& x.message == f.message@
    &&& f.automatic ==> x.applicability == "automatic"@
    &&& !f.automatic ==> x.applicability == "manual"@
    &&& x.edits.len() == f.edits@.len()
    &&& forall|i: int, k: int|
        #![trigger x.edits[i], files[k]]
        0 <= i < x.edits.len() && 0 <= k < files.len() && files[k].id == f.edits@[i].file
            ==> x.edits[i].replacement == f.edits@[i].replacement@ && lies_at(
            x.edits[i].location,
            files[k],
            f.edits@[i].span,
        )
}

/// A diagnostic is a finding of the linter in a file.
pub open spec fn tells_finding(
    d: DiagnosticView,
    files: Seq<FileFacts>,
    file: FileFacts,
    lint: LintFact,
) -> bool {
    &&& d.phase == "lint"@
    &&& d.source == "tolk-linter"@
    &&& lint.severity is Fatal || lint.severity is Error ==> d.severity == "error"@
    &&& lint.severity is Warning ==> d.severity == "warning"@
    &&& lint.severity is Info ==> d.severity == "information"@
    &&& lint.severity is Help ==> d.severity == "hint"@
    &&& d.code == opt_view(lint.code)
    &&& d.message == lint.message@
    &&& d.help == opt_view(lint.help)
    &&& d.annotations.len() == lint.annotations@.len()
    &&& forall|i: int|
        0 <= i < d.annotations.len() ==> shows_annotation(
            #[trigger] d.annotations[i],
            file,
            lint.annotations@[i],
        )
    &&& d.fixes.len() == lint.fixes@.len()
    &&& forall|i: int|
        0 <= i < d.fixes.len() ==> shows_fix(#[trigger] d.fixes[i], files, lint.fixes@[i])
    &&& match d.location {
        Some(place) => exists|i: int|
            0 <= i < lint.annotations@.len() && lies_at(
                place,
                file,
                (#[trigger] lint.annotations@[i]).span,
            ) && (forall|k: int|
                0 <= k < i ==> !(#[trigger] lint.annotations@[k]).primary) && (
            lint.annotations@[i].primary || (i == 0 && forall|k: int|
                0 <= k < lint.annotations@.len() ==> !(#[trigger] lint.annotations@[k]).primary)),
        None => lint.annotations@.len() == 0,
    }
}

proof fn lemma_primary(annotations: Seq<LintAnnotation>, i: int)
    requires
        0 <= i,
        forall|k: int| 0 <= k < i && k < annotations.len() ==> !(#[trigger] annotations[k]).primary,
    ensures
        match primary_from(annotations, i) {
            Some(at) => 0 <= at < annotations.len() && annotations[at].primary && forall|k: int|
                0 <= k < at ==> !(#[trigger] annotations[k]).primary,
            None => forall|k: int|
                0 <= k < annotations.len() ==> !(#[trigger] annotations[k]).primary,
        },
    decreases annotations.len() - i,
{
    if i < annotations.len() && !annotations[i].primary {
        lemma_primary(annotations, i + 1);
    }
}

proof fn lemma_finding(files: Seq<FileFacts>, at: int, lint: LintFact)
    requires
        known_apart(files),
        0 <= at < files.len(),
        files[at].id == lint.file,
    ensures
        tells_finding(lint_diagnostic(files, lint), files, files[at], lint),
{
    let d = lint_diagnostic(files, lint);
    lemma_found_is_own(files, at);
    lemma_primary(lint.annotations@, 0);
    assert forall|i: int| 0 <= i < d.annotations.len() implies shows_annotation(
        #[trigger] d.annotations[i],
        files[at],
        lint.annotations@[i],
    ) by {}
    assert forall|i: int| 0 <= i < d.fixes.len() implies shows_fix(
        #[trigger] d.fixes[i],
        files,
        lint.fixes@[i],
    ) by {
        let x = d.fixes[i];
        let f = lint.fixes@[i];
        assert forall|j: int, k: int|
            #![trigger x.edits[j], files[k]]
            0 <= j < x.edits.len() && 0 <= k < files.len() && files[k].id
                == f.edits@[j].file implies x.edits[j].replacement == f.edits@[j].replacement@
            && lies_at(x.edits[j].location, files[k], f.edits@[j].span) by {
            lemma_found_is_own(files, k);
        }
    }
    match d.location {
        Some(place) => {
            let i = match primary_from(lint.annotations@, 0) {
                Some(at) => at,
                None => 0,
            };
            assert(lies_at(place, files[at], lint.annotations@[i].span));
        },
        None => {},
    }
}

proof fn lemma_parse_keep(file: FileFacts, i: int, acc: Seq<DiagnosticView>, d: DiagnosticView, k: int)
    requires
        0 <= i,
    ensures
        acc.contains(d) ==> parse_diagnostics_from(file, i, acc).contains(d),
        i <= k < file.errors@.len() && d == parse_diagnostic(file, file.errors@[k])
            ==> parse_diagnostics_from(file, i, acc).contains(d),
    decreases file.errors@.len() - i,
{
    if i < file.errors@.len() {
        let own = parse_diagnostic(file, file.errors@[i]);
        lemma_pushed(acc, own);
        lemma_parse_keep(file, i + 1, acc.push(own), d, k);
    }
}

spec fn lost_import(file: FileFacts, import: ImportFact) -> DiagnosticView {
    plain_diagnostic(
        "project"@,
        "tolk-resolver"@,
        "error"@,
        "unresolved-import"@,
        "cannot resolve import `"@ + import.path@ + "`"@,
        Some(span_location(file, import.span)),
    )
}

proof fn lemma_import_keep(file: FileFacts, i: int, acc: Seq<DiagnosticView>, d: DiagnosticView, k: int)
    requires
        0 <= i,
    ensures
        acc.contains(d) ==> import_diagnostics_from(file, i, acc).contains(d),
        i <= k < file.imports@.len() && file.imports@[k].target is None && d == lost_import(
            file,
            file.imports@[k],
        ) ==> import_diagnostics_from(file, i, acc).contains(d),
    decreases file.imports@.len() - i,
{
    if i < file.imports@.len() {
        let import = file.imports@[i];
        lemma_pushed(acc, lost_import(file, import));
        lemma_import_keep(
            file,
            i + 1,
            if import.target is None {
                acc.push(lost_import(file, import))
            } else {
                acc
            },
            d,
            k,
        );
    }
}

spec fn told_of_file(file: FileFacts, d: DiagnosticView) -> bool {
    ||| exists|k: int|
        0 <= k < file.errors@.len() && d == #[trigger] parse_diagnostic(file, file.errors@[k])
    ||| exists|k: int|
        0 <= k < file.imports@.len() && file.imports@[k].target is None && d
            == #[trigger] lost_import(file, file.imports@[k])
}

proof fn lemma_files_keep(
    files: Seq<FileFacts>,
    i: int,
    acc: Seq<DiagnosticView>,
    d: DiagnosticView,
    at: int,
)
    requires
        0 <= i,
    ensures
        acc.contains(d) ==> file_diagnostics_from(files, i, acc).contains(d),
        i <= at < files.len() && told_of_file(files[at], d) ==> file_diagnostics_from(
            files,
            i,
            acc,
        ).contains(d),
    decreases files.len() - i,
{
    if i < files.len() {
        let file = files[i];
        let first = parse_diagnostics_from(file, 0, acc);
        lemma_parse_keep(file, 0, acc, d, 0);
        lemma_import_keep(file, 0, first, d, 0);
        if i == at && told_of_file(file, d) {
            if exists|k: int|
                0 <= k < file.errors@.len() && d == #[trigger] parse_diagnostic(
                    file,
                    file.errors@[k],
                ) {
                let k = choose|k: int|
                    0 <= k < file.errors@.len() && d == #[trigger] parse_diagnostic(
                        file,
                        file.errors@[k],
                    );
                lemma_parse_keep(file, 0, acc, d, k);
            } else {
                let k = choose|k: int|
                    0 <= k < file.imports@.len() && file.imports@[k].target is None && d
                        == #[trigger] lost_import(file, file.imports@[k]);
                lemma_import_keep(file, 0, first, d, k);
            }
        }
        lemma_files_keep(files, i + 1, import_diagnostics_from(file, 0, first), d, at);
    }
}

proof fn lemma_lints_keep(
    files: Seq<FileFacts>,
    lints: Seq<LintFact>,
    i: int,
    acc: Seq<DiagnosticView>,
    d: DiagnosticView,
    k: int,
)
    requires
        0 <= i,
    ensures
        acc.contains(d) ==> lint_diagnostics_from(files, lints, i, acc).contains(d),
        i <= k < lints.len() && in_workspace_from(files, lints[k].file, 0) && d
            == lint_diagnostic(files, lints[k]) ==> lint_diagnostics_from(
            files,
            lints,
            i,
            acc,
        ).contains(d),
    decreases lints.len() - i,
{
    if i < lints.len() {
        let own = lint_diagnostic(files, lints[i]);
        lemma_pushed(acc, own);
        lemma_lints_keep(
            files,
            lints,
            i + 1,
            if in_workspace_from(files, lints[i].file, 0) {
                acc.push(own)
            } else {
                acc
            },
            d,
            k,
        );
    }
}

proof fn lemma_in_workspace(files: Seq<FileFacts>, id: u32, i: int, at: int)
    requires
        0 <= i <= at < files.len(),
        files[at].id == id,
        files[at].source_kind is Workspace,
    ensures
        in_workspace_from(files, id, i),
    decreases at - i,
{
    if i < at {
        lemma_in_workspace(files, id, i + 1, at);
    }
}

proof fn lemma_shown_diagnostic(
    a: Seq<DiagnosticView>,
    b: Seq<DiagnosticView>,
    c: Seq<DiagnosticView>,
    e: Seq<DiagnosticView>,
    d: DiagnosticView,
)
    requires
        a.contains(d) || b.contains(d) || c.contains(d) || e.contains(d),
    ensures
        stable_sorted::<Diagnostic>(a + b + c + e).contains(d),
{
    sorting_keeps_items::<Diagnostic>(a + b + c + e);
    lemma_in_sum(a, b, d);
    lemma_in_sum(a + b, c, d);
    lemma_in_sum(a + b + c, e, d);
}

/// A list of diagnostics tells a parse error.
pub open spec fn has_parse_error(
    list: Seq<DiagnosticView>,
    file: FileFacts,
    error: ParseError,
) -> bool {
    exists|d: DiagnosticView| #[trigger] list.contains(d) && tells_parse_error(d, file, error)
}

/// A list of diagnostics tells of an import that leads nowhere.
pub open spec fn has_lost_import(
    list: Seq<DiagnosticView>,
    file: FileFacts,
    import: ImportFact,
) -> bool {
    exists|d: DiagnosticView| #[trigger] list.contains(d) && tells_lost_import(d, file, import)
}

/// A list of diagnostics tells a finding.
pub open spec fn has_finding(
    list: Seq<DiagnosticView>,
    files: Seq<FileFacts>,
    file: FileFacts,
    lint: LintFact,
) -> bool {
    exists|d: DiagnosticView| #[trigger] list.contains(d) && tells_finding(d, files, file, lint)
}

/// A list of diagnostics tells each parse error, each import that leads nowhere and each finding
/// in the workspace.
pub open spec fn tells_all(
    list: Seq<DiagnosticView>,
    files: Seq<FileFacts>,
    lints: Seq<LintFact>,
) -> bool {
    &&& forall|at: int, k: int|
        0 <= at < files.len() && 0 <= k < files[at].errors@.len() ==> #[trigger] has_parse_error(
            list,
            files[at],
            files[at].errors@[k],
        )
    &&& forall|at: int, k: int|
        0 <= at < files.len() && 0 <= k < files[at].imports@.len()
            && files[at].imports@[k].target is None ==> #[trigger] has_lost_import(
            list,
            files[at],
            files[at].imports@[k],
        )
    &&& forall|at: int, k: int|
        0 <= at < files.len() && 0 <= k < lints.len() && files[at].id == lints[k].file
            && files[at].source_kind is Workspace ==> #[trigger] has_finding(
            list,
            files,
            files[at],
            lints[k],
        )
}

proof fn lemma_tells_all(
    files: Seq<FileFacts>,
    lints: Seq<LintFact>,
    b: Seq<DiagnosticView>,
    e: Seq<DiagnosticView>,
)
    requires
        known_apart(files),
    ensures
        tells_all(
            stable_sorted::<Diagnostic>(
                file_diagnostics_from(files, 0, Seq::empty()) + b + lint_diagnostics_from(
                    files,
                    lints,
                    0,
                    Seq::empty(),
                ) + e,
            ),
            files,
            lints,
        ),
{
    let a = file_diagnostics_from(files, 0, Seq::empty());
    let c = lint_diagnostics_from(files, lints, 0, Seq::empty());
    let list = stable_sorted::<Diagnostic>(a + b + c + e);
    assert forall|at: int, k: int|
        0 <= at < files.len() && 0 <= k
            < files[at].errors@.len() implies #[trigger] has_parse_error(
        list,
        files[at],
        files[at].errors@[k],
    ) by {
        let d = parse_diagnostic(files[at], files[at].errors@[k]);
        assert(told_of_file(files[at], d));
        lemma_files_keep(files, 0, Seq::empty(), d, at);
        lemma_shown_diagnostic(a, b, c, e, d);
        assert(list.contains(d) && tells_parse_error(d, files[at], files[at].errors@[k]));
    }
    assert forall|at: int, k: int|
        0 <= at < files.len() && 0 <= k < files[at].imports@.len()
            && files[at].imports@[k].target is None implies #[trigger] has_lost_import(
        list,
        files[at],
        files[at].imports@[k],
    ) by {
        let d = lost_import(files[at], files[at].imports@[k]);
        assert(told_of_file(files[at], d));
        lemma_files_keep(files, 0, Seq::empty(), d, at);
        lemma_shown_diagnostic(a, b, c, e, d);
        assert(list.contains(d) && tells_lost_import(d, files[at], files[at].imports@[k]));
    }
    assert forall|at: int, k: int|
        0 <= at < files.len() && 0 <= k < lints.len() && files[at].id == lints[k].file
            && files[at].source_kind is Workspace implies #[trigger] has_finding(
        list,
        files,
        files[at],
        lints[k],
    ) by {
        let d = lint_diagnostic(files, lints[k]);
        lemma_in_workspace(files, lints[k].file, 0, at);
        lemma_lints_keep(files, lints, 0, Seq::empty(), d, k);
        lemma_shown_diagnostic(a, b, c, e, d);
        lemma_finding(files, at, lints[k]);
        assert(list.contains(d) && tells_finding(d, files, files[at], lints[k]));
    }
}

/// A snapshot tells what is wrong: each parse error, each import that leads nowhere, and each
/// finding of the linter in the workspace, with its severity, its places and its fixes.
pub proof fn faults_are_told(facts: ProjectFacts)
    requires
        known_apart(files_in_order(facts)),
    ensures
        built(facts) matches Ok(snapshot) ==> tells_all(
            snapshot.diagnostics,
            files_in_order(facts),
            facts.lints@,
        ),
{
    let files = files_in_order(facts);
    let names = names_of(files, facts.types@);
    lemma_tells_all(
        files,
        facts.lints@,
        references_of(files, all_uses(files), indexes_of(files, names)).diagnostics,
        project_diagnostics_from(views(facts.errors@), 0, Seq::empty()),
    );
}

} // verus!
