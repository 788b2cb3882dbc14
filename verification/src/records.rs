//! Which calls a program analysis records.
use crate::calls::has_site;
use crate::effects::called_value;
use crate::flow::enclosing_node;
use crate::ids::LocalRef;
use crate::lattice::{not_reached, Callable};
use crate::model::{CallSite, CallSiteView};
use crate::order::{Keyed, PartView};
use crate::program::{
    analyzed, analyzed_from, blank, calls_from, definition_states, doubted, first_summary,
    idle_value, passes, program_analysis, rounds_for, scope_in, site_of, with_call_at,
    with_definition, with_outcome, AnalysisView, ProgramCallView, ProgramView, SummaryView,
};
use crate::scope::{direct_target, node_under};
use crate::syntax::{part, SyntaxNode};
use crate::tables::{ascending, lemma_ascending};
use vstd::prelude::*;

verus! {

/// The expression that a call calls, where the call lies in the control flow of its caller.
pub open spec fn callee_in_flow(program: ProgramView, call: ProgramCallView) -> Option<SyntaxNode> {
    let graph = program.definitions[call.caller].graph;
    match (
        enclosing_node(graph, call.span),
        node_under(scope_in(program, call.file), call.span),
    ) {
        (Some(_), Some(node)) => part(node, "callee"@),
        _ => None,
    }
}

/// The call site that a pass records for a call.
pub open spec fn recorded_site(
    program: ProgramView,
    call: ProgramCallView,
    callee: SyntaxNode,
    states: Seq<Option<Map<LocalRef, Callable>>>,
    results: Map<Seq<char>, Callable>,
) -> CallSiteView {
    let scope = scope_in(program, call.file);
    let at = enclosing_node(program.definitions[call.caller].graph, call.span)->Some_0;
    site_of(
        program,
        call,
        match states[at] {
            Some(state) => called_value(scope, callee, state, results),
            None => idle_value(scope, callee),
        },
        direct_target(scope, callee) is Some,
    )
}

/// The sites are those of calls.
pub open spec fn stem_from_calls(
    program: ProgramView,
    summary: SummaryView,
    external: bool,
    sites: Seq<CallSiteView>,
) -> bool {
    forall|k: int|
        0 <= k < sites.len() ==> stems_from_some(program, summary, external, #[trigger] sites[k])
}

/// A site is that of a call.
pub open spec fn stems_from_some(
    program: ProgramView,
    summary: SummaryView,
    external: bool,
    site: CallSiteView,
) -> bool {
    exists|i: int| stems_from(program, summary, external, site, i)
}

/// A site is that of the call at position `i`.
pub open spec fn stems_from(
    program: ProgramView,
    summary: SummaryView,
    external: bool,
    site: CallSiteView,
    i: int,
) -> bool {
    &&& 0 <= i < program.calls.len()
    &&& program.definitions.contains_key(program.calls[i].caller)
    &&& definition_states(program, program.calls[i].caller, summary, external) matches Some(states)
        && callee_in_flow(program, program.calls[i]) matches Some(callee) && site == recorded_site(
        program,
        program.calls[i],
        callee,
        states,
        summary.results,
    )
}

proof fn lemma_one_more(
    program: ProgramView,
    summary: SummaryView,
    external: bool,
    sites: Seq<CallSiteView>,
    site: CallSiteView,
)
    requires
        stem_from_calls(program, summary, external, sites),
        stems_from_some(program, summary, external, site),
    ensures
        stem_from_calls(program, summary, external, sites.push(site)),
{
}

proof fn lemma_calls_from(
    program: ProgramView,
    id: Seq<char>,
    summary: SummaryView,
    external: bool,
    states: Seq<Option<Map<LocalRef, Callable>>>,
    i: int,
    acc: AnalysisView,
    site: CallSiteView,
)
    requires
        0 <= i <= program.calls.len(),
        program.definitions.contains_key(id),
        definition_states(program, id, summary, external) == Some(states),
        stem_from_calls(program, summary, external, acc.call_sites),
    ensures
        ({
            let after = calls_from(program, id, states, summary.results, i, acc);
            &&& acc.call_sites.contains(site) ==> after.call_sites.contains(site)
            &&& forall|k: int|
                i <= k < program.calls.len() && (#[trigger] program.calls[k]).caller == id ==> (
                callee_in_flow(program, program.calls[k]) matches Some(callee)
                    ==> after.call_sites.contains(
                    recorded_site(program, program.calls[k], callee, states, summary.results),
                ))
            &&& stem_from_calls(program, summary, external, after.call_sites)
        }),
    decreases program.calls.len() - i,
{
    if i < program.calls.len() {
        let call = program.calls[i];
        let results = summary.results;
        let after = calls_from(program, id, states, results, i, acc);
        let next = with_call_at(program, id, states, results, i, acc);
        assert(after == calls_from(program, id, states, results, i + 1, next));
        if call.caller == id && callee_in_flow(program, call) is Some {
            let callee = callee_in_flow(program, call)->Some_0;
            let made = recorded_site(program, call, callee, states, results);
            assert(next.call_sites == acc.call_sites.push(made));
            assert(stems_from(program, summary, external, made, i));
            assert(next.call_sites[next.call_sites.len() - 1] == made);
            assert(next.call_sites.contains(made));
            if acc.call_sites.contains(site) {
                let k = choose|k: int| 0 <= k < acc.call_sites.len() && acc.call_sites[k] == site;
                assert(next.call_sites[k] == site);
            }
            assert(stems_from_some(program, summary, external, made));
            lemma_one_more(program, summary, external, acc.call_sites, made);
            lemma_calls_from(program, id, summary, external, states, i + 1, next, made);
            lemma_calls_from(program, id, summary, external, states, i + 1, next, site);
        } else {
            assert(next == acc);
            lemma_calls_from(program, id, summary, external, states, i + 1, next, site);
        }
    }
}

proof fn lemma_analyzed_from(
    program: ProgramView,
    summary: SummaryView,
    external: bool,
    ids: Seq<Seq<char>>,
    i: int,
    acc: AnalysisView,
    site: CallSiteView,
)
    requires
        0 <= i <= ids.len(),
        forall|j: int| 0 <= j < ids.len() ==> program.definitions.contains_key(#[trigger] ids[j]),
        stem_from_calls(program, summary, external, acc.call_sites),
    ensures
        analyzed_from(program, summary, external, ids, i, acc) matches Some(found) ==> {
            &&& acc.call_sites.contains(site) ==> found.call_sites.contains(site)
            &&& forall|j: int, k: int|
                #![trigger ids[j], program.calls[k]]
                i <= j < ids.len() && 0 <= k < program.calls.len() && program.calls[k].caller
                    == ids[j] ==> (definition_states(
                    program,
                    ids[j],
                    summary,
                    external,
                ) matches Some(states) && (callee_in_flow(
                    program,
                    program.calls[k],
                ) matches Some(callee) ==> found.call_sites.contains(
                    recorded_site(program, program.calls[k], callee, states, summary.results),
                )))
            &&& stem_from_calls(program, summary, external, found.call_sites)
        },
    decreases ids.len() - i,
{
    if i < ids.len() {
        let id = ids[i];
        assert(program.definitions.contains_key(id));
        match definition_states(program, id, summary, external) {
            Some(states) => {
                let next = with_definition(program, id, summary, external, states, acc);
                let middle = with_outcome(program, id, summary, external, states, acc);
                assert(next == calls_from(program, id, states, summary.results, 0, middle));
                lemma_calls_from(program, id, summary, external, states, 0, middle, site);
                lemma_analyzed_from(program, summary, external, ids, i + 1, next, site);
                match analyzed_from(program, summary, external, ids, i, acc) {
                    Some(found) => {
                        assert forall|j: int, k: int|
                            #![trigger ids[j], program.calls[k]]
                            i <= j < ids.len() && 0 <= k < program.calls.len()
                                && program.calls[k].caller == ids[j] implies (definition_states(
                            program,
                            ids[j],
                            summary,
                            external,
                        ) matches Some(states) && (callee_in_flow(
                            program,
                            program.calls[k],
                        ) matches Some(callee) ==> found.call_sites.contains(
                            recorded_site(
                                program,
                                program.calls[k],
                                callee,
                                states,
                                summary.results,
                            ),
                        ))) by {
                            if j == i {
                                match callee_in_flow(program, program.calls[k]) {
                                    Some(callee) => {
                                        let made = recorded_site(
                                            program,
                                            program.calls[k],
                                            callee,
                                            states,
                                            summary.results,
                                        );
                                        assert(next.call_sites.contains(made));
                                        lemma_analyzed_from(
                                            program,
                                            summary,
                                            external,
                                            ids,
                                            i + 1,
                                            next,
                                            made,
                                        );
                                    },
                                    None => {},
                                }
                            }
                        }
                    },
                    None => {},
                }
            },
            None => {},
        }
    }
}

/// A pass records each call that lies in the control flow of its caller, with what it may call
/// there, and nothing else.
pub proof fn pass_records_calls(
    program: ProgramView,
    summary: SummaryView,
    external: bool,
    i: int,
)
    requires
        program.definitions.dom().finite(),
    ensures
        analyzed(program, summary, external) matches Some(found) ==> {
            &&& 0 <= i < program.calls.len() && program.definitions.contains_key(
                program.calls[i].caller,
            ) ==> (definition_states(
                program,
                program.calls[i].caller,
                summary,
                external,
            ) matches Some(states) && (callee_in_flow(
                program,
                program.calls[i],
            ) matches Some(callee) ==> found.call_sites.contains(
                recorded_site(program, program.calls[i], callee, states, summary.results),
            )))
            &&& stem_from_calls(program, summary, external, found.call_sites)
        },
{
    let ids = ascending::<String>(program.definitions.dom());
    lemma_ascending::<String>(program.definitions.dom());
    assert forall|j: int| 0 <= j < ids.len() implies program.definitions.contains_key(
        #[trigger] ids[j],
    ) by {
        assert(ids.to_set().contains(ids[j]));
    }
    let any = blank(program).call_sites[0];
    lemma_analyzed_from(program, summary, external, ids, 0, blank(program), any);
    match analyzed(program, summary, external) {
        Some(found) => {
            if 0 <= i < program.calls.len() && program.definitions.contains_key(
                program.calls[i].caller,
            ) {
                assert(ids.to_set().contains(program.calls[i].caller));
                let j = choose|j: int| 0 <= j < ids.len() && ids[j] == program.calls[i].caller;
                assert(program.calls[i].caller == ids[j]);
            }
        },
        None => {},
    }
}

/// What the last of some passes starts from.
proof fn lemma_last_pass(
    program: ProgramView,
    external: bool,
    found: AnalysisView,
    rounds: nat,
) -> (summary: SummaryView)
    requires
        rounds > 0,
    ensures
        passes(program, external, found, rounds) matches Some(end) ==> analyzed(
            program,
            summary,
            external,
        ) == Some(end),
    decreases rounds,
{
    match analyzed(program, found.summary, external) {
        Some(next) => if next.summary == found.summary || rounds == 1 {
            found.summary
        } else {
            lemma_last_pass(program, external, next, (rounds - 1) as nat)
        },
        None => found.summary,
    }
}

/// The key of the call site of a call.
pub open spec fn site_key(
    program: ProgramView,
    call: ProgramCallView,
    callee: SyntaxNode,
) -> Seq<PartView> {
    CallSite::key_view(
        site_of(
            program,
            call,
            not_reached(),
            direct_target(scope_in(program, call.file), callee) is Some,
        ),
    )
}

/// The analysis of a program records every call that lies in the control flow of its caller:
/// direct or indirect, in a lambda or not, with a known target or without.
pub proof fn every_call_is_recorded(program: ProgramView, i: int)
    requires
        program.definitions.dom().finite(),
        0 <= i < program.calls.len(),
        program.definitions.contains_key(program.calls[i].caller),
    ensures
        program_analysis(program) matches Some(found) ==> (callee_in_flow(
            program,
            program.calls[i],
        ) matches Some(callee) ==> has_site(
            found.call_sites,
            site_key(program, program.calls[i], callee),
        )),
{
    let rounds = rounds_for(ascending::<String>(program.definitions.dom()).len());
    let start = AnalysisView {
        summary: first_summary(program),
        call_sites: Seq::empty(),
    };
    match passes(program, false, start, rounds) {
        Some(inside) => {
            let summary = lemma_last_pass(program, true, inside, rounds);
            match (
                passes(program, true, inside, rounds),
                callee_in_flow(program, program.calls[i]),
            ) {
                (Some(last), Some(callee)) => {
                    let key = site_key(program, program.calls[i], callee);
                    lemma_pass_has_site(program, summary, i, callee);
                    lemma_pass_has_site(program, last.summary, i, callee);
                    assert(has_site(doubted(last).call_sites, key)) by {
                        let k = choose|k: int|
                            0 <= k < last.call_sites.len() && CallSite::key_view(
                                #[trigger] last.call_sites[k],
                            ) == key;
                        assert(CallSite::key_view(doubted(last).call_sites[k]) == key);
                    }
                },
                _ => {},
            }
        },
        None => {},
    }
}

proof fn lemma_pass_has_site(
    program: ProgramView,
    summary: SummaryView,
    i: int,
    callee: SyntaxNode,
)
    requires
        program.definitions.dom().finite(),
        0 <= i < program.calls.len(),
        program.definitions.contains_key(program.calls[i].caller),
        callee_in_flow(program, program.calls[i]) == Some(callee),
    ensures
        analyzed(program, summary, true) matches Some(found) ==> has_site(
            found.call_sites,
            site_key(program, program.calls[i], callee),
        ),
{
    pass_records_calls(program, summary, true, i);
    match analyzed(program, summary, true) {
        Some(found) => {
            let call = program.calls[i];
            let states = definition_states(program, call.caller, summary, true)->Some_0;
            let made = recorded_site(program, call, callee, states, summary.results);
            assert(found.call_sites.contains(made));
            let k = choose|k: int| 0 <= k < found.call_sites.len() && found.call_sites[k] == made;
            assert(CallSite::key_view(found.call_sites[k]) == site_key(program, call, callee));
        },
        None => {},
    }
}

} // verus!
