//! Laws of the locals that a lambda captures.
use crate::definitions::{captured_by, captured_from, captures_in, definition_span_from};
use crate::facts::{FileFacts, LocalFact, UseFact};
use crate::ids::{LocalRef, Resolved, Span};
use crate::tables::{ascending, lemma_ascending};
use vstd::prelude::*;

verus! {

/// A local is defined by an entry, the first of its name.
pub open spec fn is_definition(locals: Seq<LocalFact>, k: int, x: LocalRef) -> bool {
    &&& 0 <= k < locals.len()
    &&& locals[k].id == x
    &&& forall|j: int| 0 <= j < k ==> (#[trigger] locals[j]).id != x
}

/// A use inside a lambda of a local that is defined outside it.
pub open spec fn reaches_out(locals: Seq<LocalFact>, u: UseFact, lambda: Span, x: LocalRef) -> bool {
    &&& u.resolved == Resolved::Local(x)
    &&& lambda.start <= u.span.start && u.span.end <= lambda.end
    &&& exists|k: int| #[trigger]
        is_definition(locals, k, x) && !(lambda.start <= locals[k].span.start
            && locals[k].span.end <= lambda.end)
}

proof fn lemma_definition_span(locals: Seq<LocalFact>, x: LocalRef, i: int)
    requires
        0 <= i <= locals.len(),
        forall|j: int| 0 <= j < i ==> (#[trigger] locals[j]).id != x,
    ensures
        match definition_span_from(locals, x, i) {
            Some(span) => exists|k: int| #[trigger]
                is_definition(locals, k, x) && locals[k].span == span,
            None => forall|k: int| !#[trigger] is_definition(locals, k, x),
        },
    decreases locals.len() - i,
{
    if i < locals.len() {
        if locals[i].id != x {
            lemma_definition_span(locals, x, i + 1);
        } else {
            assert(is_definition(locals, i, x));
        }
    }
}

proof fn lemma_one_definition(locals: Seq<LocalFact>, x: LocalRef, k: int, m: int)
    requires
        is_definition(locals, k, x),
        is_definition(locals, m, x),
    ensures
        k == m,
{
    if m < k {
        assert(locals[m].id != x);
    } else if k < m {
        assert(locals[k].id != x);
    }
}

proof fn lemma_captured_by(locals: Seq<LocalFact>, u: UseFact, lambda: Span, x: LocalRef)
    ensures
        captured_by(locals, u, lambda) == Some(x) <==> reaches_out(locals, u, lambda, x),
{
    match u.resolved {
        Resolved::Local(y) => {
            lemma_definition_span(locals, y, 0);
            if reaches_out(locals, u, lambda, x) {
                let k = choose|k: int| #[trigger]
                    is_definition(locals, k, x) && !(lambda.start <= locals[k].span.start
                        && locals[k].span.end <= lambda.end);
                assert(definition_span_from(locals, y, 0) is Some);
                let span = definition_span_from(locals, y, 0)->Some_0;
                let m = choose|m: int| #[trigger]
                    is_definition(locals, m, x) && locals[m].span == span;
                lemma_one_definition(locals, x, k, m);
            }
        },
        _ => {},
    }
}

proof fn lemma_captured(
    locals: Seq<LocalFact>,
    uses: Seq<UseFact>,
    lambda: Span,
    i: int,
    acc: Set<LocalRef>,
    x: LocalRef,
)
    requires
        0 <= i,
        acc.finite(),
    ensures
        captured_from(locals, uses, lambda, i, acc).finite(),
        captured_from(locals, uses, lambda, i, acc).contains(x) <==> acc.contains(x) || exists|
            k: int,
        | i <= k < uses.len() && #[trigger] reaches_out(locals, uses[k], lambda, x),
    decreases uses.len() - i,
{
    if i < uses.len() {
        lemma_captured_by(locals, uses[i], lambda, x);
        let next = match captured_by(locals, uses[i], lambda) {
            Some(local) => acc.insert(local),
            None => acc,
        };
        lemma_captured(locals, uses, lambda, i + 1, next, x);
        if exists|k: int| i <= k < uses.len() && #[trigger] reaches_out(locals, uses[k], lambda, x) {
            let k = choose|k: int|
                i <= k < uses.len() && #[trigger] reaches_out(locals, uses[k], lambda, x);
            if k > i {
                assert(i + 1 <= k < uses.len() && reaches_out(locals, uses[k], lambda, x));
            }
        }
    }
}

/// A lambda captures the locals that are used inside it and defined outside it, and no other.
pub proof fn lambdas_capture_what_they_reach(file: FileFacts, lambda: Span, x: LocalRef)
    ensures
        captures_in(file, lambda).contains(x) <==> (file.resolved matches Some(facts) && exists|
            k: int,
        |
            0 <= k < facts.uses@.len() && #[trigger] reaches_out(
                facts.locals@,
                facts.uses@[k],
                lambda,
                x,
            )),
{
    match file.resolved {
        Some(facts) => {
            lemma_captured(facts.locals@, facts.uses@, lambda, 0, Set::empty(), x);
            let all = captured_from(facts.locals@, facts.uses@, lambda, 0, Set::empty());
            lemma_ascending::<LocalRef>(all);
            assert(ascending::<LocalRef>(all).to_set().contains(x) == all.contains(x));
        },
        None => {},
    }
}

} // verus!
