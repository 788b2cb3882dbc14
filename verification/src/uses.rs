//! Laws of the uses of names that a snapshot lists.
use crate::diagnostics::{
    file_diagnostics_from, import_diagnostics_from, lint_diagnostics_from, parse_diagnostic,
    parse_diagnostics_from, project_diagnostics_from,
};
use crate::facts::{
    file_from, lemma_found_file, FileFacts, LintFact, LocalFact, NameKind, ProjectFacts, SymbolFact,
    UseFact,
};
use crate::ids::{Resolved, Span, SpanKey};
use crate::inspect::{built, indexes_of, names_of};
use crate::known::{
    declares, defines, known_apart, lemma_found_is_own, lemma_local_ids_declared,
    lemma_symbol_ids_declared, local_ids_are_known, symbol_ids_are_known,
};
use crate::listed::{id_of, id_of_local, lemma_in_sum, lies_at};
use crate::model::{
    Diagnostic, DiagnosticView, Reference, ReferenceAccess, ReferenceView, Resolution,
    ResolutionView,
};
use crate::promises::{files_in_order, only_the_workspace_is_linted};
use crate::references::{
    access_from, all_uses, bodies_from, called_at, found_from, inferred_from, inferred_uses_from,
    is_called, located_from, plain_diagnostic, reference_of, references_of, resolved_id,
    resolved_uses_from, use_key, use_value, uses_from, with_inferred, with_use, FoundView,
    IndexesView, UseKey, UseKeyView, UseValue,
};
use crate::scope::NamesView;
use crate::sort::{
    deduped, dropping_repeats_adds_nothing, sorting_keeps_items, stable_sorted, Repeats,
};
use crate::symbols::{local_ids_from, span_location, symbol_ids_from};
use crate::syntax::{kinds_go_by_text, node_at, part, SyntaxNode};
use crate::tables::{ascending, lemma_ascending};
use crate::text::views;
use crate::written::{lemma_one_is_kept, lemma_pushed};
use vstd::prelude::*;

verus! {

/// A use of a file stands at a place under a name.
pub open spec fn stands_at(file: FileFacts, u: UseFact, key: UseKeyView) -> bool {
    &&& key.place.file == file.id
    &&& key.place.start == u.span.start
    &&& key.place.end == u.span.end
    &&& key.name == u.name@
}

/// Name resolution found a use.
pub open spec fn resolver_found(file: FileFacts, u: UseFact, key: UseKeyView) -> bool {
    stands_at(file, u, key) && (file.resolved matches Some(facts) && facts.uses@.contains(u))
}

/// Type inference found a use.
pub open spec fn inference_found(file: FileFacts, u: UseFact, key: UseKeyView) -> bool {
    stands_at(file, u, key) && exists|b: int|
        0 <= b < file.bodies@.len() && #[trigger] file.bodies@[b].uses@.contains(u)
}

/// Name resolution found a use in one of the files.
pub open spec fn resolver_use(files: Seq<FileFacts>, u: UseFact, key: UseKeyView) -> bool {
    exists|i: int| 0 <= i < files.len() && #[trigger] resolver_found(files[i], u, key)
}

/// Type inference found a use in one of the files.
pub open spec fn inferred_use(files: Seq<FileFacts>, u: UseFact, key: UseKeyView) -> bool {
    exists|i: int| 0 <= i < files.len() && #[trigger] inference_found(files[i], u, key)
}

/// What is found at a place under a name settles what the name stands for: name resolution says
/// so, or it says nothing and type inference does.
pub open spec fn settles(files: Seq<FileFacts>, key: UseKeyView, target: Resolved) -> bool {
    ||| {
        &&& !(target is Unresolved)
        &&& exists|u: UseFact| #[trigger] resolver_use(files, u, key)
        &&& forall|u: UseFact| #[trigger] resolver_use(files, u, key) ==> u.resolved == target
    }
    ||| {
        &&& forall|u: UseFact| #[trigger]
            resolver_use(files, u, key) ==> u.resolved is Unresolved
        &&& forall|u: UseFact| #[trigger]
            inferred_use(files, u, key) ==> u.resolved is Unresolved || u.resolved == target
        &&& (exists|u: UseFact| #[trigger] inferred_use(files, u, key) && u.resolved == target)
            || (target is Unresolved && exists|u: UseFact| #[trigger] resolver_use(files, u, key))
    }
}

/// A value stems from a use.
spec fn stems(files: Seq<FileFacts>, key: UseKeyView, value: UseValue) -> bool {
    exists|u: UseFact| #[trigger] is_use(files, u, key) && value.kind == u.kind && value.resolved
        == u.resolved
}

/// A use was found.
pub open spec fn is_use(files: Seq<FileFacts>, u: UseFact, key: UseKeyView) -> bool {
    resolver_use(files, u, key) || inferred_use(files, u, key)
}

proof fn lemma_uses_from(
    file: u32,
    uses: Seq<UseFact>,
    i: int,
    acc: Map<UseKeyView, UseValue>,
    key: UseKeyView,
    ok: spec_fn(UseValue) -> bool,
)
    requires
        0 <= i,
        acc.contains_key(key) ==> ok(acc[key]),
        acc.dom().finite(),
        forall|j: int|
            i <= j < uses.len() && use_key(file, #[trigger] uses[j]) == key ==> ok(
                use_value(uses[j]),
            ),
    ensures
        uses_from(file, uses, i, acc).dom().finite(),
        uses_from(file, uses, i, acc).contains_key(key) <==> acc.contains_key(key) || exists|
            j: int,
        |
            i <= j < uses.len() && use_key(file, #[trigger] uses[j]) == key,
        uses_from(file, uses, i, acc).contains_key(key) ==> ok(
            uses_from(file, uses, i, acc)[key],
        ),
    decreases uses.len() - i,
{
    if i < uses.len() {
        let next = acc.insert(use_key(file, uses[i]), use_value(uses[i]));
        lemma_uses_from(file, uses, i + 1, next, key, ok);
        if exists|j: int| i <= j < uses.len() && use_key(file, #[trigger] uses[j]) == key {
            let j = choose|j: int| i <= j < uses.len() && use_key(file, #[trigger] uses[j]) == key;
            if j > i {
                assert(i + 1 <= j < uses.len() && use_key(file, uses[j]) == key);
            }
        }
    }
}

proof fn lemma_resolved_uses(
    files: Seq<FileFacts>,
    i: int,
    acc: Map<UseKeyView, UseValue>,
    key: UseKeyView,
    ok: spec_fn(UseValue) -> bool,
)
    requires
        0 <= i,
        acc.contains_key(key) ==> ok(acc[key]),
        acc.dom().finite(),
        forall|u: UseFact| #[trigger] resolver_use(files, u, key) ==> ok(use_value(u)),
    ensures
        resolved_uses_from(files, i, acc).dom().finite(),
        resolved_uses_from(files, i, acc).contains_key(key) <==> acc.contains_key(key) || exists|
            k: int,
            u: UseFact,
        | i <= k < files.len() && #[trigger] resolver_found(files[k], u, key),
        resolved_uses_from(files, i, acc).contains_key(key) ==> ok(
            resolved_uses_from(files, i, acc)[key],
        ),
    decreases files.len() - i,
{
    if i < files.len() {
        let file = files[i];
        let next = match file.resolved {
            Some(facts) => uses_from(file.id, facts.uses@, 0, acc),
            None => acc,
        };
        match file.resolved {
            Some(facts) => {
                let uses = facts.uses@;
                assert forall|j: int|
                    0 <= j < uses.len() && use_key(file.id, #[trigger] uses[j]) == key implies ok(
                    use_value(uses[j]),
                ) by {
                    assert(uses.contains(uses[j]));
                    assert(resolver_found(files[i], uses[j], key));
                    assert(resolver_use(files, uses[j], key));
                }
                lemma_uses_from(file.id, uses, 0, acc, key, ok);
                if next.contains_key(key) && !acc.contains_key(key) {
                    let j = choose|j: int|
                        0 <= j < uses.len() && use_key(file.id, #[trigger] uses[j]) == key;
                    assert(uses.contains(uses[j]));
                    assert(resolver_found(files[i], uses[j], key));
                }
                if exists|u: UseFact| #[trigger] resolver_found(files[i], u, key) {
                    let u = choose|u: UseFact| #[trigger] resolver_found(files[i], u, key);
                    let j = choose|j: int| 0 <= j < uses.len() && uses[j] == u;
                    assert(use_key(file.id, uses[j]) == key);
                }
            },
            None => {},
        }
        lemma_resolved_uses(files, i + 1, next, key, ok);
        if exists|k: int, u: UseFact|
            i <= k < files.len() && #[trigger] resolver_found(files[k], u, key) {
            let (k, u) = choose|k: int, u: UseFact|
                i <= k < files.len() && #[trigger] resolver_found(files[k], u, key);
            if k > i {
                assert(i + 1 <= k < files.len() && resolver_found(files[k], u, key));
            } else {
                assert(next.contains_key(key));
            }
        }
    }
}

/// What more inferred uses do to what a name stands for.
spec fn inferred_more(
    after: Map<UseKeyView, UseValue>,
    before: Map<UseKeyView, UseValue>,
    key: UseKeyView,
    ok: spec_fn(UseValue) -> bool,
) -> bool {
    &&& after.dom().finite()
    &&& before.contains_key(key) ==> after.contains_key(key)
    &&& before.contains_key(key) && !(before[key].resolved is Unresolved) ==> after[key]
        == before[key]
    &&& after.contains_key(key) ==> ok(after[key])
}

proof fn lemma_inferred(
    file: u32,
    uses: Seq<UseFact>,
    i: int,
    acc: Map<UseKeyView, UseValue>,
    key: UseKeyView,
    ok: spec_fn(UseValue) -> bool,
)
    requires
        0 <= i,
        acc.dom().finite(),
        acc.contains_key(key) ==> ok(acc[key]),
        forall|j: int|
            i <= j < uses.len() && use_key(file, #[trigger] uses[j]) == key ==> ok(
                use_value(uses[j]),
            ),
    ensures
        inferred_more(inferred_from(file, uses, i, acc), acc, key, ok),
        inferred_from(file, uses, i, acc).contains_key(key) ==> acc.contains_key(key) || exists|
            j: int,
        |
            i <= j < uses.len() && use_key(file, #[trigger] uses[j]) == key,
        forall|j: int|
            i <= j < uses.len() && use_key(file, #[trigger] uses[j]) == key ==> inferred_from(
                file,
                uses,
                i,
                acc,
            ).contains_key(key) && (!(uses[j].resolved is Unresolved) ==> !(inferred_from(
                file,
                uses,
                i,
                acc,
            )[key].resolved is Unresolved)),
    decreases uses.len() - i,
{
    if i < uses.len() {
        let next = with_inferred(file, uses[i], acc);
        lemma_inferred(file, uses, i + 1, next, key, ok);
        let after = inferred_from(file, uses, i, acc);
        assert forall|j: int|
            i <= j < uses.len() && use_key(file, #[trigger] uses[j]) == key implies after.contains_key(
            key,
        ) && (!(uses[j].resolved is Unresolved) ==> !(after[key].resolved is Unresolved)) by {
            if j == i {
                assert(next.contains_key(key));
            }
        }
    }
}

proof fn lemma_bodies(
    files: Seq<FileFacts>,
    at: int,
    i: int,
    acc: Map<UseKeyView, UseValue>,
    key: UseKeyView,
    ok: spec_fn(UseValue) -> bool,
)
    requires
        0 <= i,
        0 <= at < files.len(),
        acc.dom().finite(),
        acc.contains_key(key) ==> ok(acc[key]),
        forall|u: UseFact| #[trigger] inferred_use(files, u, key) ==> ok(use_value(u)),
    ensures
        ({
            let after = bodies_from(files[at].id, files[at].bodies@, i, acc);
            &&& inferred_more(after, acc, key, ok)
            &&& after.contains_key(key) ==> acc.contains_key(key) || exists|u: UseFact| #[trigger]
                inferred_use(files, u, key)
            &&& forall|b: int, u: UseFact|
                i <= b < files[at].bodies@.len() && #[trigger] files[at].bodies@[b].uses@.contains(
                    u,
                ) && stands_at(files[at], u, key) ==> after.contains_key(key) && (!(
                u.resolved is Unresolved) ==> !(after[key].resolved is Unresolved))
        }),
    decreases files[at].bodies@.len() - i,
{
    let file = files[at];
    let bodies = file.bodies@;
    if i < bodies.len() {
        let uses = bodies[i].uses@;
        assert forall|j: int| 0 <= j < uses.len() && use_key(file.id, #[trigger] uses[j])
            == key implies ok(use_value(uses[j])) && inferred_use(files, uses[j], key) by {
            assert(file.bodies@[i].uses@.contains(uses[j]));
            assert(inference_found(files[at], uses[j], key));
            assert(inferred_use(files, uses[j], key));
        }
        lemma_inferred(file.id, uses, 0, acc, key, ok);
        let next = inferred_from(file.id, uses, 0, acc);
        lemma_bodies(files, at, i + 1, next, key, ok);
        let after = bodies_from(file.id, bodies, i, acc);
        assert forall|b: int, u: UseFact|
            i <= b < bodies.len() && #[trigger] file.bodies@[b].uses@.contains(u) && stands_at(
                file,
                u,
                key,
            ) implies after.contains_key(key) && (!(u.resolved is Unresolved) ==> !(
        after[key].resolved is Unresolved)) by {
            if b == i {
                let j = choose|j: int| 0 <= j < uses.len() && uses[j] == u;
                assert(use_key(file.id, uses[j]) == key);
                assert(next.contains_key(key));
            }
        }
    }
}

proof fn lemma_inferred_uses(
    files: Seq<FileFacts>,
    i: int,
    acc: Map<UseKeyView, UseValue>,
    key: UseKeyView,
    ok: spec_fn(UseValue) -> bool,
)
    requires
        0 <= i,
        acc.dom().finite(),
        acc.contains_key(key) ==> ok(acc[key]),
        forall|u: UseFact| #[trigger] inferred_use(files, u, key) ==> ok(use_value(u)),
    ensures
        ({
            let after = inferred_uses_from(files, i, acc);
            &&& inferred_more(after, acc, key, ok)
            &&& after.contains_key(key) ==> acc.contains_key(key) || exists|u: UseFact| #[trigger]
                inferred_use(files, u, key)
            &&& forall|k: int, u: UseFact|
                i <= k < files.len() && #[trigger] inference_found(files[k], u, key)
                    ==> after.contains_key(key) && (!(u.resolved is Unresolved) ==> !(
                after[key].resolved is Unresolved))
        }),
    decreases files.len() - i,
{
    if i < files.len() {
        lemma_bodies(files, i, 0, acc, key, ok);
        let next = bodies_from(files[i].id, files[i].bodies@, 0, acc);
        lemma_inferred_uses(files, i + 1, next, key, ok);
        let after = inferred_uses_from(files, i, acc);
        assert forall|k: int, u: UseFact|
            i <= k < files.len() && #[trigger] inference_found(
                files[k],
                u,
                key,
            ) implies after.contains_key(key) && (!(u.resolved is Unresolved) ==> !(
        after[key].resolved is Unresolved)) by {
            if k == i {
                let b = choose|b: int|
                    0 <= b < files[k].bodies@.len() && #[trigger] files[k].bodies@[b].uses@.contains(
                        u,
                    );
                assert(next.contains_key(key));
            }
        }
    }
}

/// The uses of a project are those that were found, each with what it was found as.
pub proof fn uses_are_found(files: Seq<FileFacts>, key: UseKeyView)
    ensures
        all_uses(files).dom().finite(),
        all_uses(files).contains_key(key) <==> exists|u: UseFact| #[trigger]
            is_use(files, u, key),
        all_uses(files).contains_key(key) ==> exists|u: UseFact| #[trigger]
            is_use(files, u, key) && all_uses(files)[key].kind == u.kind
                && all_uses(files)[key].resolved == u.resolved,
{
    let ok = |v: UseValue| stems(files, key, v);
    let first = resolved_uses_from(files, 0, Map::empty());
    assert forall|u: UseFact| #[trigger] resolver_use(files, u, key) implies ok(use_value(u)) by {
        assert(is_use(files, u, key));
    }
    assert forall|u: UseFact| #[trigger] inferred_use(files, u, key) implies ok(use_value(u)) by {
        assert(is_use(files, u, key));
    }
    lemma_resolved_uses(files, 0, Map::empty(), key, ok);
    lemma_inferred_uses(files, 0, first, key, ok);
    let all = all_uses(files);
    if exists|u: UseFact| #[trigger] is_use(files, u, key) {
        let u = choose|u: UseFact| #[trigger] is_use(files, u, key);
        if resolver_use(files, u, key) {
            let i = choose|i: int| 0 <= i < files.len() && #[trigger] resolver_found(
                files[i],
                u,
                key,
            );
            assert(first.contains_key(key));
        } else {
            let i = choose|i: int| 0 <= i < files.len() && #[trigger] inference_found(
                files[i],
                u,
                key,
            );
            assert(all.contains_key(key));
        }
    }
    if all.contains_key(key) {
        assert(ok(all[key]));
    }
}

/// A use stands for what is settled at its place.
pub proof fn settled_uses_stand(files: Seq<FileFacts>, key: UseKeyView, target: Resolved)
    requires
        settles(files, key, target),
    ensures
        all_uses(files).contains_key(key),
        all_uses(files)[key].resolved == target,
{
    let first = resolved_uses_from(files, 0, Map::empty());
    let all = all_uses(files);
    let any = |v: UseValue| true;
    uses_are_found(files, key);
    lemma_resolved_uses(files, 0, Map::empty(), key, any);
    lemma_inferred_uses(files, 0, first, key, any);
    if !(target is Unresolved) && (exists|u: UseFact| #[trigger] resolver_use(files, u, key)) && (
    forall|u: UseFact| #[trigger] resolver_use(files, u, key) ==> u.resolved == target) {
        let same = |v: UseValue| v.resolved == target;
        assert forall|u: UseFact| #[trigger] resolver_use(files, u, key) implies same(
            use_value(u),
        ) by {}
        lemma_resolved_uses(files, 0, Map::empty(), key, same);
        let u = choose|u: UseFact| #[trigger] resolver_use(files, u, key);
        let i = choose|i: int| 0 <= i < files.len() && #[trigger] resolver_found(files[i], u, key);
        assert(first.contains_key(key));
        assert(same(first[key]));
    } else {
        let fits = |v: UseValue| v.resolved is Unresolved || v.resolved == target;
        assert forall|u: UseFact| #[trigger] resolver_use(files, u, key) implies fits(
            use_value(u),
        ) by {}
        assert forall|u: UseFact| #[trigger] inferred_use(files, u, key) implies fits(
            use_value(u),
        ) by {}
        lemma_resolved_uses(files, 0, Map::empty(), key, fits);
        lemma_inferred_uses(files, 0, first, key, fits);
        if exists|u: UseFact| #[trigger] inferred_use(files, u, key) && u.resolved == target {
            let u = choose|u: UseFact| #[trigger]
                inferred_use(files, u, key) && u.resolved == target;
            let i = choose|i: int|
                0 <= i < files.len() && #[trigger] inference_found(files[i], u, key);
            assert(all.contains_key(key));
            assert(fits(all[key]));
        } else {
            let u = choose|u: UseFact| #[trigger] resolver_use(files, u, key);
            assert(is_use(files, u, key));
            assert(fits(all[key]));
        }
    }
}

/// What a name stands for has an id: that of a local or of a symbol that a file of the project
/// declares. Nothing else has one.
pub open spec fn is_id_of(
    files: Seq<FileFacts>,
    target: Resolved,
    id: Option<Seq<char>>,
) -> bool {
    match target {
        Resolved::Local(local) => match id {
            Some(text) => exists|k: int, l: LocalFact|
                0 <= k < files.len() && #[trigger] defines(files[k], l) && l.id == local && text
                    == id_of_local(files[k], local),
            None => forall|k: int, l: LocalFact|
                0 <= k < files.len() && #[trigger] defines(files[k], l) ==> l.id != local,
        },
        Resolved::Global(symbol) => match id {
            Some(text) => exists|k: int, s: SymbolFact|
                0 <= k < files.len() && #[trigger] declares(files[k], s) && s.id == symbol && text
                    == id_of(files[k], symbol),
            None => forall|k: int, s: SymbolFact|
                0 <= k < files.len() && #[trigger] declares(files[k], s) ==> s.id != symbol,
        },
        Resolved::Unresolved => id is None,
    }
}

proof fn lemma_id_of(files: Seq<FileFacts>, names: NamesView, target: Resolved)
    requires
        known_apart(files),
        names.symbol_ids == symbol_ids_from(files, 0, Map::empty()),
    ensures
        is_id_of(
            files,
            target,
            resolved_id(target, names.symbol_ids, local_ids_from(files, 0, Map::empty())),
        ),
{
    let ids = names.symbol_ids;
    let locals = local_ids_from(files, 0, Map::empty());
    match target {
        Resolved::Local(local) => {
            if locals.contains_key(local) {
                lemma_local_ids_declared(files, 0, Map::empty(), local);
                let (k, l) = choose|k: int, l: LocalFact|
                    0 <= k < files.len() && #[trigger] defines(files[k], l) && l.id == local;
                local_ids_are_known(files, k, l);
                assert(defines(files[k], l));
            } else {
                assert forall|k: int, l: LocalFact|
                    0 <= k < files.len() && #[trigger] defines(files[k], l) implies l.id
                    != local by {
                    local_ids_are_known(files, k, l);
                }
            }
        },
        Resolved::Global(symbol) => {
            if ids.contains_key(symbol) {
                lemma_symbol_ids_declared(files, 0, Map::empty(), symbol);
                let (k, s) = choose|k: int, s: SymbolFact|
                    0 <= k < files.len() && #[trigger] declares(files[k], s) && s.id == symbol;
                symbol_ids_are_known(files, k, s);
                assert(declares(files[k], s));
            } else {
                assert forall|k: int, s: SymbolFact|
                    0 <= k < files.len() && #[trigger] declares(files[k], s) implies s.id
                    != symbol by {
                    symbol_ids_are_known(files, k, s);
                }
            }
        },
        Resolved::Unresolved => {},
    }
}

/// A name is looked up in a namespace.
pub open spec fn is_namespace(kind: NameKind, text: Seq<char>) -> bool {
    &&& kind is Value || kind is LocalValue ==> text == "value"@
    &&& kind is Type ==> text == "type"@
    &&& kind is Mixed ==> text == "mixed"@
}

/// How the use at a span accesses what it names: as the first access that is known there says,
/// and by reading it where none is known.
pub open spec fn accesses(file: FileFacts, span: Span, access: ReferenceAccess) -> bool {
    if exists|j: int| is_first_access(file, span, j) {
        exists|j: int| is_first_access(file, span, j) && access == file.accesses@[j].access
    } else {
        access.read && !access.write && !access.mutate
    }
}

/// The access at a position is the first at a span.
pub open spec fn is_first_access(file: FileFacts, span: Span, j: int) -> bool {
    &&& 0 <= j < file.accesses@.len()
    &&& file.accesses@[j].span == span
    &&& forall|k: int| 0 <= k < j ==> (#[trigger] file.accesses@[k]).span != span
}

proof fn lemma_access(file: FileFacts, span: Span, i: int)
    requires
        0 <= i <= file.accesses@.len(),
        forall|k: int| 0 <= k < i ==> (#[trigger] file.accesses@[k]).span != span,
    ensures
        accesses(file, span, access_from(file.accesses@, span, i)),
    decreases file.accesses@.len() - i,
{
    if i < file.accesses@.len() {
        if file.accesses@[i].span == span {
            assert(is_first_access(file, span, i));
        } else {
            lemma_access(file, span, i + 1);
        }
    } else if exists|j: int| is_first_access(file, span, j) {
        let j = choose|j: int| is_first_access(file, span, j);
        assert(file.accesses@[j].span != span);
    }
}

/// A reference is that of the uses at a place under a name.
pub open spec fn refers(
    r: ReferenceView,
    files: Seq<FileFacts>,
    file: FileFacts,
    key: UseKeyView,
) -> bool {
    let span = Span { start: key.place.start, end: key.place.end };
    &&& key.place.file == file.id
    &&& r.name == key.name
    &&& lies_at(r.location, file, span)
    &&& r.resolved == (r.symbol_id is Some)
    &&& accesses(file, span, r.context.access)
    &&& r.context.usage == (if is_called(file, located_from(files, 0, Map::empty()), span) {
        "call"@
    } else if r.context.access.mutate {
        "mutate"@
    } else if r.context.access.write {
        "write"@
    } else {
        "read"@
    })
    &&& exists|u: UseFact| #[trigger]
        is_use(files, u, key) && is_namespace(u.kind, r.context.namespace) && is_id_of(
            files,
            u.resolved,
            r.symbol_id,
        )
}

/// A diagnostic reports that a reference stands for nothing.
pub open spec fn reports(d: DiagnosticView, r: ReferenceView) -> bool {
    &&& !r.resolved
    &&& d.phase == "resolution"@
    &&& d.source == "tolk-resolver"@
    &&& d.severity == "warning"@
    &&& d.code == Some("unresolved-name"@)
    &&& d.message == "unresolved "@ + r.context.namespace + " name `"@ + r.name + "`"@
    &&& d.location == Some(r.location)
    &&& d.help is None
    &&& d.annotations.len() == 0
    &&& d.fixes.len() == 0
}

/// What is found of a use.
spec fn found_of(
    files: Seq<FileFacts>,
    uses: Map<UseKeyView, UseValue>,
    indexes: IndexesView,
    key: UseKeyView,
    r: ReferenceView,
) -> bool {
    file_from(files, key.place.file, 0) matches Some(at) && r == reference_of(
        files[at],
        key,
        uses[key],
        indexes,
    )
}

proof fn lemma_found(
    files: Seq<FileFacts>,
    uses: Map<UseKeyView, UseValue>,
    keys: Seq<UseKeyView>,
    indexes: IndexesView,
    i: int,
    acc: FoundView,
    r: ReferenceView,
    d: DiagnosticView,
    x: ResolutionView,
)
    requires
        0 <= i,
    ensures
        ({
            let after = found_from(files, uses, keys, indexes, i, acc);
            &&& after.references.contains(r) <==> acc.references.contains(r) || exists|k: int|
                i <= k < keys.len() && #[trigger] found_of(files, uses, indexes, keys[k], r)
            &&& after.diagnostics.contains(d) <==> acc.diagnostics.contains(d) || exists|
                k: int,
                y: ReferenceView,
            |
                i <= k < keys.len() && #[trigger] found_of(files, uses, indexes, keys[k], y)
                    && d == report_of(y) && !y.resolved
            &&& after.resolutions.contains(x) <==> acc.resolutions.contains(x) || exists|
                k: int,
                y: ReferenceView,
            |
                i <= k < keys.len() && #[trigger] found_of(files, uses, indexes, keys[k], y)
                    && y.node_id == Some(x.node_id) && x.symbol_id == y.symbol_id && x.resolved
                    == y.resolved
        }),
    decreases keys.len() - i,
{
    if i < keys.len() {
        let key = keys[i];
        let next = match file_from(files, key.place.file, 0) {
            Some(at) => with_use(files[at], key, uses[key], indexes, acc),
            None => acc,
        };
        lemma_found(files, uses, keys, indexes, i + 1, next, r, d, x);
        match file_from(files, key.place.file, 0) {
            Some(at) => {
                let own = reference_of(files[at], key, uses[key], indexes);
                assert(found_of(files, uses, indexes, keys[i], own));
                lemma_pushed(acc.references, own);
                lemma_pushed(acc.diagnostics, report_of(own));
                if own.node_id is Some {
                    lemma_pushed(
                        acc.resolutions,
                        ResolutionView {
                            node_id: own.node_id->Some_0,
                            symbol_id: own.symbol_id,
                            resolved: own.resolved,
                        },
                    );
                }
            },
            None => {},
        }
        if exists|k: int| i <= k < keys.len() && #[trigger] found_of(files, uses, indexes, keys[k], r) {
            let k = choose|k: int|
                i <= k < keys.len() && #[trigger] found_of(files, uses, indexes, keys[k], r);
            if k > i {
                assert(i + 1 <= k < keys.len() && found_of(files, uses, indexes, keys[k], r));
            }
        }
        if exists|k: int, y: ReferenceView|
            i <= k < keys.len() && #[trigger] found_of(files, uses, indexes, keys[k], y) && d
                == report_of(y) && !y.resolved {
            let (k, y) = choose|k: int, y: ReferenceView|
                i <= k < keys.len() && #[trigger] found_of(files, uses, indexes, keys[k], y) && d
                    == report_of(y) && !y.resolved;
            if k > i {
                assert(i + 1 <= k < keys.len() && found_of(files, uses, indexes, keys[k], y));
            }
        }
        if exists|k: int, y: ReferenceView|
            i <= k < keys.len() && #[trigger] found_of(files, uses, indexes, keys[k], y)
                && y.node_id == Some(x.node_id) && x.symbol_id == y.symbol_id && x.resolved
                == y.resolved {
            let (k, y) = choose|k: int, y: ReferenceView|
                i <= k < keys.len() && #[trigger] found_of(files, uses, indexes, keys[k], y)
                    && y.node_id == Some(x.node_id) && x.symbol_id == y.symbol_id && x.resolved
                    == y.resolved;
            if k > i {
                assert(i + 1 <= k < keys.len() && found_of(files, uses, indexes, keys[k], y));
            }
        }
    }
}

/// What is said of a reference that stands for nothing.
spec fn report_of(r: ReferenceView) -> DiagnosticView {
    plain_diagnostic(
        "resolution"@,
        "tolk-resolver"@,
        "warning"@,
        "unresolved-name"@,
        "unresolved "@ + r.context.namespace + " name `"@ + r.name + "`"@,
        Some(r.location),
    )
}

proof fn lemma_refers(
    files: Seq<FileFacts>,
    names: NamesView,
    at: int,
    key: UseKeyView,
    indexes: IndexesView,
)
    requires
        known_apart(files),
        names.symbol_ids == symbol_ids_from(files, 0, Map::empty()),
        names.located == located_from(files, 0, Map::empty()),
        indexes == indexes_of(files, names),
        0 <= at < files.len(),
        files[at].id == key.place.file,
        all_uses(files).contains_key(key),
    ensures
        refers(
            reference_of(files[at], key, all_uses(files)[key], indexes),
            files,
            files[at],
            key,
        ),
        is_id_of(
            files,
            all_uses(files)[key].resolved,
            reference_of(files[at], key, all_uses(files)[key], indexes).symbol_id,
        ),
{
    let value = all_uses(files)[key];
    let span = Span { start: key.place.start, end: key.place.end };
    uses_are_found(files, key);
    lemma_access(files[at], span, 0);
    lemma_id_of(files, names, value.resolved);
    let u = choose|u: UseFact| #[trigger]
        is_use(files, u, key) && value.kind == u.kind && value.resolved == u.resolved;
    assert(is_namespace(
        u.kind,
        reference_of(files[at], key, value, indexes).context.namespace,
    ));
}

/// A reference stands at a place under a name.
pub open spec fn is_at(r: ReferenceView, file: FileFacts, key: UseKeyView) -> bool {
    &&& key.place.file == file.id
    &&& r.name == key.name
    &&& lies_at(r.location, file, Span { start: key.place.start, end: key.place.end })
}

/// Every reference is that of a use.
pub open spec fn references_are_uses(
    files: Seq<FileFacts>,
    references: Seq<ReferenceView>,
) -> bool {
    forall|r: ReferenceView| #[trigger]
        references.contains(r) ==> exists|at: int, key: UseKeyView|
            0 <= at < files.len() && #[trigger] refers(r, files, files[at], key)
}

/// Every use in a file of the project has a reference.
pub open spec fn uses_are_referred(
    files: Seq<FileFacts>,
    references: Seq<ReferenceView>,
) -> bool {
    forall|at: int, key: UseKeyView, u: UseFact|
        #![trigger is_use(files, u, key), files[at]]
        0 <= at < files.len() && is_use(files, u, key) && key.place.file == files[at].id
            ==> exists|r: ReferenceView| #[trigger]
            references.contains(r) && refers(r, files, files[at], key)
}

/// A reference has the id of what its name stands for, where that is settled.
pub open spec fn references_are_right(
    files: Seq<FileFacts>,
    references: Seq<ReferenceView>,
) -> bool {
    forall|at: int, key: UseKeyView, target: Resolved, r: ReferenceView|
        #![trigger settles(files, key, target), is_at(r, files[at], key)]
        0 <= at < files.len() && settles(files, key, target) && references.contains(r) && is_at(
            r,
            files[at],
            key,
        ) ==> is_id_of(files, target, r.symbol_id) && r.resolved == (r.symbol_id is Some)
}

/// The node of a reference is resolved as the reference is, and nothing else is resolved.
pub open spec fn resolutions_agree(
    references: Seq<ReferenceView>,
    resolutions: Seq<ResolutionView>,
) -> bool {
    &&& forall|r: ReferenceView| #[trigger]
        references.contains(r) && r.node_id is Some ==> resolutions.contains(
            ResolutionView {
                node_id: r.node_id->Some_0,
                symbol_id: r.symbol_id,
                resolved: r.resolved,
            },
        )
    &&& forall|x: ResolutionView| #[trigger]
        resolutions.contains(x) ==> exists|r: ReferenceView| #[trigger]
            references.contains(r) && r.node_id == Some(x.node_id) && r.symbol_id == x.symbol_id
                && r.resolved == x.resolved
}

proof fn lemma_keys_found(
    files: Seq<FileFacts>,
    indexes: IndexesView,
    r: ReferenceView,
)
    ensures
        references_of(files, all_uses(files), indexes).references.contains(r) <==> exists|
            key: UseKeyView,
        | #[trigger]
            all_uses(files).contains_key(key) && found_of(
                files,
                all_uses(files),
                indexes,
                key,
                r,
            ),
{
    let uses = all_uses(files);
    let keys = ascending::<UseKey>(uses.dom());
    let start = FoundView {
        references: Seq::empty(),
        resolutions: Seq::empty(),
        diagnostics: Seq::empty(),
    };
    let found = found_from(files, uses, keys, indexes, 0, start);
    uses_are_found(files, arbitrary());
    lemma_ascending::<UseKey>(uses.dom());
    lemma_found(files, uses, keys, indexes, 0, start, r, arbitrary(), arbitrary());
    sorting_keeps_items::<Reference>(found.references);
    if found.references.contains(r) {
        let k = choose|k: int|
            0 <= k < keys.len() && #[trigger] found_of(files, uses, indexes, keys[k], r);
        assert(keys.to_set().contains(keys[k]));
        assert(uses.contains_key(keys[k]));
    }
    if exists|key: UseKeyView| #[trigger]
        uses.contains_key(key) && found_of(files, uses, indexes, key, r) {
        let key = choose|key: UseKeyView| #[trigger]
            uses.contains_key(key) && found_of(files, uses, indexes, key, r);
        assert(keys.to_set().contains(key));
        let k = choose|k: int| 0 <= k < keys.len() && keys[k] == key;
        assert(found_of(files, uses, indexes, keys[k], r));
    }
}

proof fn lemma_references(files: Seq<FileFacts>, names: NamesView)
    requires
        known_apart(files),
        names.symbol_ids == symbol_ids_from(files, 0, Map::empty()),
        names.located == located_from(files, 0, Map::empty()),
    ensures
        ({
            let references = references_of(
                files,
                all_uses(files),
                indexes_of(files, names),
            ).references;
            &&& references_are_uses(files, references)
            &&& uses_are_referred(files, references)
            &&& references_are_right(files, references)
        }),
{
    let uses = all_uses(files);
    let indexes = indexes_of(files, names);
    let references = references_of(files, uses, indexes).references;
    assert forall|r: ReferenceView| #[trigger] references.contains(r) implies exists|
        at: int,
        key: UseKeyView,
    | 0 <= at < files.len() && #[trigger] refers(r, files, files[at], key) by {
        lemma_keys_found(files, indexes, r);
        let key = choose|key: UseKeyView| #[trigger]
            uses.contains_key(key) && found_of(files, uses, indexes, key, r);
        let at = file_from(files, key.place.file, 0)->Some_0;
        lemma_found_file(files, key.place.file, 0);
        lemma_refers(files, names, at, key, indexes);
        assert(refers(r, files, files[at], key));
    }
    assert forall|at: int, key: UseKeyView, u: UseFact|
        #![trigger is_use(files, u, key), files[at]]
        0 <= at < files.len() && is_use(files, u, key) && key.place.file
            == files[at].id implies exists|r: ReferenceView| #[trigger]
        references.contains(r) && refers(r, files, files[at], key) by {
        uses_are_found(files, key);
        lemma_found_is_own(files, at);
        lemma_refers(files, names, at, key, indexes);
        let r = reference_of(files[at], key, uses[key], indexes);
        assert(found_of(files, uses, indexes, key, r));
        lemma_keys_found(files, indexes, r);
        assert(references.contains(r));
    }
    assert forall|at: int, key: UseKeyView, target: Resolved, r: ReferenceView|
        #![trigger settles(files, key, target), is_at(r, files[at], key)]
        0 <= at < files.len() && settles(files, key, target) && references.contains(r) && is_at(
            r,
            files[at],
            key,
        ) implies is_id_of(files, target, r.symbol_id) && r.resolved == (
    r.symbol_id is Some) by {
        settled_uses_stand(files, key, target);
        lemma_keys_found(files, indexes, r);
        let own = choose|own: UseKeyView| #[trigger]
            uses.contains_key(own) && found_of(files, uses, indexes, own, r);
        let k = file_from(files, own.place.file, 0)->Some_0;
        lemma_found_file(files, own.place.file, 0);
        lemma_refers(files, names, k, own, indexes);
        assert(files[k].text.path@ == files[at].text.path@);
        assert(files[k] == files[at]);
        assert(own == key) by {
            assert(own.place == key.place);
        }
    }
}

proof fn lemma_resolutions(files: Seq<FileFacts>, indexes: IndexesView)
    ensures
        resolutions_agree(
            references_of(files, all_uses(files), indexes).references,
            references_of(files, all_uses(files), indexes).resolutions,
        ),
{
    let uses = all_uses(files);
    let keys = ascending::<UseKey>(uses.dom());
    let start = FoundView {
        references: Seq::empty(),
        resolutions: Seq::empty(),
        diagnostics: Seq::empty(),
    };
    let found = found_from(files, uses, keys, indexes, 0, start);
    let sorted = stable_sorted::<Resolution>(found.resolutions);
    let kept = deduped::<Resolution>(sorted);
    sorting_keeps_items::<Resolution>(found.resolutions);
    sorting_keeps_items::<Reference>(found.references);
    let references = stable_sorted::<Reference>(found.references);
    assert forall|x: ResolutionView| #[trigger] kept.contains(x) implies exists|
        r: ReferenceView,
    | #[trigger]
        references.contains(r) && r.node_id == Some(x.node_id) && r.symbol_id == x.symbol_id
            && r.resolved == x.resolved by {
        dropping_repeats_adds_nothing::<Resolution>(sorted, x);
        assert(found.resolutions.contains(x));
        lemma_found(files, uses, keys, indexes, 0, start, arbitrary(), arbitrary(), x);
        let (k, y) = choose|k: int, y: ReferenceView|
            0 <= k < keys.len() && #[trigger] found_of(files, uses, indexes, keys[k], y)
                && y.node_id == Some(x.node_id) && x.symbol_id == y.symbol_id && x.resolved
                == y.resolved;
        lemma_found(files, uses, keys, indexes, 0, start, y, arbitrary(), x);
        assert(references.contains(y));
    }
    assert forall|r: ReferenceView| #[trigger] references.contains(r)
        && r.node_id is Some implies kept.contains(
        ResolutionView {
            node_id: r.node_id->Some_0,
            symbol_id: r.symbol_id,
            resolved: r.resolved,
        },
    ) by {
        let x = ResolutionView {
            node_id: r.node_id->Some_0,
            symbol_id: r.symbol_id,
            resolved: r.resolved,
        };
        assert(found.references.contains(r));
        lemma_found(files, uses, keys, indexes, 0, start, r, arbitrary(), x);
        let k = choose|k: int|
            0 <= k < keys.len() && #[trigger] found_of(files, uses, indexes, keys[k], r);
        assert(found.resolutions.contains(x));
        assert(sorted.contains(x));
        lemma_one_is_kept::<Resolution>(sorted, x);
        let y = choose|y: ResolutionView|
            #![trigger kept.contains(y)]
            kept.contains(y) && (y == x || Resolution::repeats(y, x));
        dropping_repeats_adds_nothing::<Resolution>(sorted, y);
        assert(found.resolutions.contains(y));
        lemma_found(files, uses, keys, indexes, 0, start, r, arbitrary(), y);
        assert(y.resolved == (y.symbol_id is Some));
        assert(y =~= x);
    }
}

/// Every use of a name is a reference at its place. A reference has the id of what its name
/// stands for where a file of the project declares it, and is resolved just where it has one. The
/// node at its place is resolved in the same way.
pub proof fn names_are_resolved(facts: ProjectFacts)
    requires
        known_apart(files_in_order(facts)),
    ensures
        built(facts) matches Ok(snapshot) ==> {
            &&& references_are_uses(files_in_order(facts), snapshot.references)
            &&& uses_are_referred(files_in_order(facts), snapshot.references)
            &&& references_are_right(files_in_order(facts), snapshot.references)
            &&& resolutions_agree(snapshot.references, snapshot.resolutions)
        },
{
    let files = files_in_order(facts);
    let names = names_of(files, facts.types@);
    lemma_references(files, names);
    lemma_resolutions(files, indexes_of(files, names));
}

proof fn lemma_file_phases(file: FileFacts, i: int, acc: Seq<DiagnosticView>, d: DiagnosticView)
    requires
        0 <= i,
    ensures
        parse_diagnostics_from(file, i, acc).contains(d) ==> acc.contains(d) || d.phase
            == "parse"@,
    decreases file.errors@.len() - i,
{
    if i < file.errors@.len() {
        let own = parse_diagnostic(file, file.errors@[i]);
        lemma_pushed(acc, own);
        lemma_file_phases(file, i + 1, acc.push(own), d);
    }
}

proof fn lemma_import_phases(file: FileFacts, i: int, acc: Seq<DiagnosticView>, d: DiagnosticView)
    requires
        0 <= i,
    ensures
        import_diagnostics_from(file, i, acc).contains(d) ==> acc.contains(d) || d.phase
            == "project"@,
    decreases file.imports@.len() - i,
{
    if i < file.imports@.len() {
        let import = file.imports@[i];
        let own = plain_diagnostic(
            "project"@,
            "tolk-resolver"@,
            "error"@,
            "unresolved-import"@,
            "cannot resolve import `"@ + import.path@ + "`"@,
            Some(span_location(file, import.span)),
        );
        lemma_pushed(acc, own);
        lemma_import_phases(
            file,
            i + 1,
            if import.target is None {
                acc.push(own)
            } else {
                acc
            },
            d,
        );
    }
}

proof fn lemma_files_phases(
    files: Seq<FileFacts>,
    i: int,
    acc: Seq<DiagnosticView>,
    d: DiagnosticView,
)
    requires
        0 <= i,
    ensures
        file_diagnostics_from(files, i, acc).contains(d) ==> acc.contains(d) || d.phase
            == "project"@ || d.phase == "parse"@,
    decreases files.len() - i,
{
    if i < files.len() {
        let first = parse_diagnostics_from(files[i], 0, acc);
        lemma_file_phases(files[i], 0, acc, d);
        lemma_import_phases(files[i], 0, first, d);
        lemma_files_phases(files, i + 1, import_diagnostics_from(files[i], 0, first), d);
    }
}

proof fn lemma_project_phases(
    errors: Seq<Seq<char>>,
    i: int,
    acc: Seq<DiagnosticView>,
    d: DiagnosticView,
)
    requires
        0 <= i,
    ensures
        project_diagnostics_from(errors, i, acc).contains(d) ==> acc.contains(d) || d.phase
            == "project"@,
    decreases errors.len() - i,
{
    if i < errors.len() {
        let own = plain_diagnostic(
            "project"@,
            "tolk-resolver"@,
            "error"@,
            "project-index"@,
            errors[i],
            None,
        );
        lemma_pushed(acc, own);
        lemma_project_phases(errors, i + 1, acc.push(own), d);
    }
}

proof fn lemma_report(d: DiagnosticView, r: ReferenceView)
    ensures
        reports(d, r) <==> d == report_of(r) && !r.resolved,
{
    if reports(d, r) {
        assert(d =~= report_of(r));
    }
}

proof fn lemma_reported(files: Seq<FileFacts>, indexes: IndexesView, d: DiagnosticView)
    requires
        references_of(files, all_uses(files), indexes).diagnostics.contains(d),
    ensures
        exists|r: ReferenceView| #[trigger]
            references_of(files, all_uses(files), indexes).references.contains(r) && reports(d, r),
{
    let uses = all_uses(files);
    let keys = ascending::<UseKey>(uses.dom());
    let start = FoundView {
        references: Seq::empty(),
        resolutions: Seq::empty(),
        diagnostics: Seq::empty(),
    };
    let found = found_from(files, uses, keys, indexes, 0, start);
    sorting_keeps_items::<Reference>(found.references);
    lemma_found(files, uses, keys, indexes, 0, start, arbitrary(), d, arbitrary());
    let (k, y) = choose|k: int, y: ReferenceView|
        0 <= k < keys.len() && #[trigger] found_of(files, uses, indexes, keys[k], y) && d
            == report_of(y) && !y.resolved;
    lemma_found(files, uses, keys, indexes, 0, start, y, d, arbitrary());
    lemma_report(d, y);
    assert(references_of(files, uses, indexes).references.contains(y));
}

proof fn lemma_is_reported(
    files: Seq<FileFacts>,
    indexes: IndexesView,
    d: DiagnosticView,
    r: ReferenceView,
)
    requires
        references_of(files, all_uses(files), indexes).references.contains(r),
        reports(d, r),
    ensures
        references_of(files, all_uses(files), indexes).diagnostics.contains(d),
{
    let uses = all_uses(files);
    let keys = ascending::<UseKey>(uses.dom());
    let start = FoundView {
        references: Seq::empty(),
        resolutions: Seq::empty(),
        diagnostics: Seq::empty(),
    };
    let found = found_from(files, uses, keys, indexes, 0, start);
    sorting_keeps_items::<Reference>(found.references);
    assert(found.references.contains(r));
    lemma_found(files, uses, keys, indexes, 0, start, r, d, arbitrary());
    lemma_report(d, r);
    let k = choose|k: int|
        0 <= k < keys.len() && #[trigger] found_of(files, uses, indexes, keys[k], r);
    assert(found_of(files, uses, indexes, keys[k], r) && d == report_of(r) && !r.resolved);
}

/// A diagnostic reports one of the references.
pub open spec fn reports_one(d: DiagnosticView, references: Seq<ReferenceView>) -> bool {
    exists|r: ReferenceView| #[trigger] references.contains(r) && reports(d, r)
}

proof fn lemma_reports(
    files: Seq<FileFacts>,
    indexes: IndexesView,
    lints: Seq<LintFact>,
    errors: Seq<Seq<char>>,
    d: DiagnosticView,
)
    requires
        d.phase == "resolution"@,
    ensures
        stable_sorted::<Diagnostic>(
            file_diagnostics_from(files, 0, Seq::empty()) + references_of(
                files,
                all_uses(files),
                indexes,
            ).diagnostics + lint_diagnostics_from(files, lints, 0, Seq::empty())
                + project_diagnostics_from(errors, 0, Seq::empty()),
        ).contains(d) <==> reports_one(
            d,
            references_of(files, all_uses(files), indexes).references,
        ),
{
    let found = references_of(files, all_uses(files), indexes);
    lemma_only_reports(files, lints, errors, found.diagnostics, d);
    if found.diagnostics.contains(d) {
        lemma_reported(files, indexes, d);
    }
    if reports_one(d, found.references) {
        let r = choose|r: ReferenceView| #[trigger] found.references.contains(r) && reports(d, r);
        lemma_is_reported(files, indexes, d, r);
    }
}

proof fn lemma_only_reports(
    files: Seq<FileFacts>,
    lints: Seq<LintFact>,
    errors: Seq<Seq<char>>,
    found: Seq<DiagnosticView>,
    d: DiagnosticView,
)
    requires
        d.phase == "resolution"@,
    ensures
        stable_sorted::<Diagnostic>(
            file_diagnostics_from(files, 0, Seq::empty()) + found + lint_diagnostics_from(
                files,
                lints,
                0,
                Seq::empty(),
            ) + project_diagnostics_from(errors, 0, Seq::empty()),
        ).contains(d) <==> found.contains(d),
{
    let a = file_diagnostics_from(files, 0, Seq::empty());
    let b = lint_diagnostics_from(files, lints, 0, Seq::empty());
    let c = project_diagnostics_from(errors, 0, Seq::empty());
    reveal_strlit("resolution");
    reveal_strlit("parse");
    reveal_strlit("project");
    reveal_strlit("lint");
    assert("resolution"@.len() == 10);
    assert("parse"@.len() == 5);
    assert("project"@.len() == 7);
    assert("lint"@.len() == 4);
    lemma_files_phases(files, 0, Seq::empty(), d);
    lemma_project_phases(errors, 0, Seq::empty(), d);
    only_the_workspace_is_linted(files, lints, d);
    sorting_keeps_items::<Diagnostic>(a + found + b + c);
    lemma_in_sum(a, found, d);
    lemma_in_sum(a + found, b, d);
    lemma_in_sum(a + found + b, c, d);
    lemma_from_sum(a, found, d);
    lemma_from_sum(a + found, b, d);
    lemma_from_sum(a + found + b, c, d);
}

proof fn lemma_from_sum<A>(a: Seq<A>, b: Seq<A>, x: A)
    ensures
        (a + b).contains(x) ==> a.contains(x) || b.contains(x),
{
    if (a + b).contains(x) {
        let i = choose|i: int| 0 <= i < (a + b).len() && (a + b)[i] == x;
        if i < a.len() {
            assert(a[i] == x);
        } else {
            assert(b[i - a.len()] == x);
        }
    }
}

/// Every reference that stands for nothing is reported, and no other name is.
pub proof fn unresolved_names_are_reported(facts: ProjectFacts, d: DiagnosticView)
    requires
        d.phase == "resolution"@,
    ensures
        built(facts) matches Ok(snapshot) ==> (snapshot.diagnostics.contains(d) <==> reports_one(
            d,
            snapshot.references,
        )),
{
    let files = files_in_order(facts);
    let names = names_of(files, facts.types@);
    lemma_reports(
        files,
        indexes_of(files, names),
        facts.lints@,
        views(facts.errors@),
        d,
    );
}

/// The call at a depth of a path is the nearest one, and calls what stands at a span.
pub open spec fn is_nearest_call(root: SyntaxNode, path: Seq<usize>, d: int, span: Span) -> bool {
    &&& 0 <= d <= path.len()
    &&& node_at(root, path.take(d)) matches Some(call) && call.kind@ == "function_call"@ && (part(
        call,
        "callee"@,
    ) matches Some(callee) && callee.start <= span.start && span.end <= callee.end)
    &&& forall|k: int|
        d < k <= path.len() ==> (node_at(root, #[trigger] path.take(k)) matches Some(node)
            && node.kind@ != "function_call"@)
}

proof fn lemma_called_at(root: SyntaxNode, path: Seq<usize>, depth: int, span: Span)
    requires
        0 <= depth <= path.len(),
        forall|k: int|
            depth < k <= path.len() ==> (node_at(root, #[trigger] path.take(k)) matches Some(node)
                && node.kind@ != "function_call"@),
    ensures
        called_at(root, path, depth, span) <==> exists|d: int|
            d <= depth && #[trigger] is_nearest_call(root, path, d, span),
    decreases depth,
{
    match node_at(root, path.take(depth)) {
        Some(node) => {
            kinds_go_by_text(node.kind@);
            if node.kind@ == "function_call"@ {
                if called_at(root, path, depth, span) {
                    assert(is_nearest_call(root, path, depth, span));
                }
                if exists|d: int| d <= depth && #[trigger] is_nearest_call(root, path, d, span) {
                    let d = choose|d: int|
                        d <= depth && #[trigger] is_nearest_call(root, path, d, span);
                    if d < depth {
                        assert(path.take(depth) == path.take(depth));
                    }
                }
            } else if depth > 0 {
                lemma_called_at(root, path, depth - 1, span);
                if exists|d: int| d <= depth && #[trigger] is_nearest_call(root, path, d, span) {
                    let d = choose|d: int|
                        d <= depth && #[trigger] is_nearest_call(root, path, d, span);
                    assert(d <= depth - 1 && is_nearest_call(root, path, d, span));
                }
            }
        },
        None => {
            if exists|d: int| d <= depth && #[trigger] is_nearest_call(root, path, d, span) {
                let d = choose|d: int| d <= depth && #[trigger] is_nearest_call(root, path, d, span);
                assert(path.take(depth) == path.take(depth));
            }
        },
    }
}

/// What stands at a span is called there just where it lies in the callee of the nearest call
/// around it.
pub proof fn called_names_lie_in_callees(
    file: FileFacts,
    located: Map<SpanKey, Seq<usize>>,
    span: Span,
)
    ensures
        is_called(file, located, span) <==> ({
            let key = SpanKey { file: file.id, start: span.start, end: span.end };
            located.contains_key(key) && exists|d: int| #[trigger]
                is_nearest_call(file.text.root, located[key], d, span)
        }),
{
    let key = SpanKey { file: file.id, start: span.start, end: span.end };
    if located.contains_key(key) {
        let path = located[key];
        lemma_called_at(file.text.root, path, path.len() as int, span);
        if exists|d: int| #[trigger] is_nearest_call(file.text.root, path, d, span) {
            let d = choose|d: int| #[trigger] is_nearest_call(file.text.root, path, d, span);
            assert(d <= path.len() && is_nearest_call(file.text.root, path, d, span));
        }
    }
}

} // verus!
