//! Laws of the call sites that a snapshot lists.
use crate::calls::{has_site, normalized_sites, normalizing_keeps_calls};
use crate::definitions::definitions_lie_in_files;
use crate::facts::{FileFacts, ProjectFacts, SymbolFact};
use crate::flow::{encloses, enclosing_is_shortest};
use crate::ids::Span;
use crate::inspect::{built, names_of};
use crate::known::{known_apart, lemma_found_is_own};
use crate::lattice::{not_reached, only};
use crate::model::{CallSite, CallSiteView};
use crate::order::{Keyed, PartView};
use crate::program::{
    analyzed, definition_states, doubted, first_summary, passes, program_analysis, rounds_for,
    scope_in, site_of, AnalysisView, ProgramCallView, ProgramView, SummaryView,
};
use crate::promises::{analyzed_program, calls_are_listed, files_in_order};
use crate::records::{callee_in_flow, pass_records_calls, recorded_site, site_key};
use crate::scope::{direct_target, node_under};
use crate::syntax::{part, SyntaxNode};
use crate::tables::{ascending, lemma_ascending};
use crate::written::{below, is_body, lambdas_known, owner_at, written_calls_are_known};
use vstd::prelude::*;

verus! {

/// A site is that of a call in a file.
pub open spec fn is_site_of(
    site: CallSiteView,
    file: FileFacts,
    caller: Seq<char>,
    span: Span,
    direct: bool,
) -> bool {
    &&& site.caller == caller
    &&& site.location.path == file.text.path@
    &&& site.location.byte_range.start == span.start
    &&& site.location.byte_range.end == span.end
    &&& direct ==> site.dispatch == "direct"@
    &&& !direct ==> site.dispatch == "indirect"@
}

/// A list has the site of a call.
pub open spec fn lists_site(
    sites: Seq<CallSiteView>,
    file: FileFacts,
    caller: Seq<char>,
    span: Span,
    direct: bool,
) -> bool {
    exists|i: int|
        0 <= i < sites.len() && is_site_of(#[trigger] sites[i], file, caller, span, direct)
}

/// A list has the site of a call that may reach a target.
pub open spec fn lists_target(
    sites: Seq<CallSiteView>,
    file: FileFacts,
    caller: Seq<char>,
    span: Span,
    target: Seq<char>,
) -> bool {
    exists|i: int|
        0 <= i < sites.len() && is_site_of(#[trigger] sites[i], file, caller, span, true)
            && sites[i].targets.contains(target)
}

/// The key of a site says where it lies, who calls there and how.
proof fn lemma_key(a: CallSiteView, b: CallSiteView)
    requires
        CallSite::key_view(a) == CallSite::key_view(b),
    ensures
        a.caller == b.caller,
        a.location.path == b.location.path,
        a.location.byte_range.start == b.location.byte_range.start,
        a.location.byte_range.end == b.location.byte_range.end,
        a.dispatch == b.dispatch,
{
    let k = CallSite::key_view(a);
    assert(k[0] == PartView::Text(a.location.path));
    assert(k[1] == PartView::Number(a.location.byte_range.start));
    assert(k[2] == PartView::Number(a.location.byte_range.end));
    assert(k[3] == PartView::Text(a.caller));
    assert(k[4] == PartView::Text(a.dispatch));
    let m = CallSite::key_view(b);
    assert(m[0] == PartView::Text(b.location.path));
    assert(m[1] == PartView::Number(b.location.byte_range.start));
    assert(m[2] == PartView::Number(b.location.byte_range.end));
    assert(m[3] == PartView::Text(b.caller));
    assert(m[4] == PartView::Text(b.dispatch));
}

/// A call of a program that lies in the flow of its caller.
pub open spec fn is_in_flow(
    program: ProgramView,
    caller: Seq<char>,
    file: u32,
    span: Span,
    callee: SyntaxNode,
) -> bool {
    &&& program.definitions.contains_key(caller)
    &&& exists|k: int|
        0 <= k < program.definitions[caller].graph.nodes@.len() && encloses(
            (#[trigger] program.definitions[caller].graph.nodes@[k]).span,
            span,
        )
    &&& node_under(scope_in(program, file), span) matches Some(node) && part(node, "callee"@)
        == Some(callee)
}

proof fn lemma_in_flow(program: ProgramView, call: ProgramCallView, callee: SyntaxNode)
    requires
        is_in_flow(program, call.caller, call.file, call.span, callee),
    ensures
        callee_in_flow(program, call) == Some(callee),
{
    enclosing_is_shortest(program.definitions[call.caller].graph, call.span);
}

proof fn lemma_site_listed(
    program: ProgramView,
    sites: Seq<CallSiteView>,
    at: int,
    call: ProgramCallView,
    callee: SyntaxNode,
)
    requires
        known_apart(program.files),
        0 <= at < program.files.len(),
        call.file == program.files[at].id,
        has_site(sites, site_key(program, call, callee)),
    ensures
        lists_site(
            sites,
            program.files[at],
            call.caller,
            call.span,
            direct_target(scope_in(program, call.file), callee) is Some,
        ),
{
    lemma_found_is_own(program.files, at);
    let made = site_of(
        program,
        call,
        not_reached(),
        direct_target(scope_in(program, call.file), callee) is Some,
    );
    let i = choose|i: int|
        0 <= i < sites.len() && CallSite::key_view(#[trigger] sites[i]) == site_key(
            program,
            call,
            callee,
        );
    lemma_key(sites[i], made);
    assert(is_site_of(
        sites[i],
        program.files[at],
        call.caller,
        call.span,
        direct_target(scope_in(program, call.file), callee) is Some,
    ));
}

/// A call that is written in the body of a callable and lies in the flow of the one it belongs to
/// has a site in the snapshot, whatever it stands in.
pub proof fn written_calls_have_sites(
    facts: ProjectFacts,
    at: int,
    symbol: SymbolFact,
    top: SyntaxNode,
    id: Seq<char>,
    path: Seq<int>,
    node: SyntaxNode,
    callee: SyntaxNode,
)
    requires
        known_apart(files_in_order(facts)),
        0 <= at < files_in_order(facts).len(),
        is_body(
            files_in_order(facts)[at],
            names_of(files_in_order(facts), facts.types@),
            symbol,
            top,
            id,
        ),
        below(top, path) == Some(node),
        node.kind@ == "function_call"@,
        lambdas_known(
            files_in_order(facts)[at].id,
            names_of(files_in_order(facts), facts.types@).lambda_ids,
            top,
            path,
        ),
        is_in_flow(
            analyzed_program(facts),
            owner_at(
                files_in_order(facts)[at].id,
                id,
                names_of(files_in_order(facts), facts.types@).lambda_ids,
                top,
                path,
            ),
            files_in_order(facts)[at].id,
            Span { start: node.start, end: node.end },
            callee,
        ),
    ensures
        built(facts) matches Ok(snapshot) ==> lists_site(
            snapshot.call_sites,
            files_in_order(facts)[at],
            owner_at(
                files_in_order(facts)[at].id,
                id,
                names_of(files_in_order(facts), facts.types@).lambda_ids,
                top,
                path,
            ),
            Span { start: node.start, end: node.end },
            direct_target(
                scope_in(analyzed_program(facts), files_in_order(facts)[at].id),
                callee,
            ) is Some,
        ),
{
    let files = files_in_order(facts);
    let names = names_of(files, facts.types@);
    let program = analyzed_program(facts);
    let owner = owner_at(files[at].id, id, names.lambda_ids, top, path);
    let span = Span { start: node.start, end: node.end };
    let call = ProgramCallView { file: files[at].id, caller: owner, span };
    written_calls_are_known(files, names, at, symbol, top, id, path);
    assert(program.calls.contains(call));
    let i = choose|i: int| 0 <= i < program.calls.len() && program.calls[i] == call;
    lemma_in_flow(program, call, callee);
    calls_are_listed(facts, i);
    if built(facts) is Ok {
        lemma_site_listed(program, built(facts)->Ok_0.call_sites, at, call, callee);
    }
}

/// The site of a direct call.
spec fn direct_site(program: ProgramView, call: ProgramCallView, target: Seq<char>) -> CallSiteView {
    site_of(program, call, only(target), true)
}

proof fn lemma_direct_pass(
    program: ProgramView,
    summary: SummaryView,
    external: bool,
    i: int,
    callee: SyntaxNode,
    target: Seq<char>,
)
    requires
        program.definitions.dom().finite(),
        0 <= i < program.calls.len(),
        program.definitions.contains_key(program.calls[i].caller),
        callee_in_flow(program, program.calls[i]) == Some(callee),
        direct_target(scope_in(program, program.calls[i].file), callee) == Some(target),
    ensures
        analyzed(program, summary, external) matches Some(found) ==> found.call_sites.contains(
            direct_site(program, program.calls[i], target),
        ),
{
    pass_records_calls(program, summary, external, i);
    match analyzed(program, summary, external) {
        Some(found) => {
            let call = program.calls[i];
            let states = definition_states(program, call.caller, summary, external)->Some_0;
            assert(recorded_site(program, call, callee, states, summary.results) == direct_site(
                program,
                call,
                target,
            ));
        },
        None => {},
    }
}

proof fn lemma_direct_passes(
    program: ProgramView,
    found: AnalysisView,
    rounds: nat,
    i: int,
    callee: SyntaxNode,
    target: Seq<char>,
)
    requires
        program.definitions.dom().finite(),
        0 <= i < program.calls.len(),
        program.definitions.contains_key(program.calls[i].caller),
        callee_in_flow(program, program.calls[i]) == Some(callee),
        direct_target(scope_in(program, program.calls[i].file), callee) == Some(target),
        rounds > 0 || found.call_sites.contains(direct_site(program, program.calls[i], target)),
    ensures
        passes(program, true, found, rounds) matches Some(end) ==> end.call_sites.contains(
            direct_site(program, program.calls[i], target),
        ),
    decreases rounds,
{
    if rounds > 0 {
        lemma_direct_pass(program, found.summary, true, i, callee, target);
        match analyzed(program, found.summary, true) {
            Some(next) => {
                if next.summary != found.summary {
                    lemma_direct_passes(program, next, (rounds - 1) as nat, i, callee, target);
                }
            },
            None => {},
        }
    }
}

proof fn lemma_direct_analysis(
    program: ProgramView,
    i: int,
    callee: SyntaxNode,
    target: Seq<char>,
)
    requires
        program.definitions.dom().finite(),
        0 <= i < program.calls.len(),
        program.definitions.contains_key(program.calls[i].caller),
        callee_in_flow(program, program.calls[i]) == Some(callee),
        direct_target(scope_in(program, program.calls[i].file), callee) == Some(target),
    ensures
        program_analysis(program) matches Some(end) ==> end.call_sites.contains(
            direct_site(program, program.calls[i], target),
        ),
{
    let rounds = rounds_for(ascending::<String>(program.definitions.dom()).len());
    let start = AnalysisView { summary: first_summary(program), call_sites: Seq::empty() };
    let made = direct_site(program, program.calls[i], target);
    reveal_strlit("direct");
    reveal_strlit("indirect");
    assert("direct"@.len() != "indirect"@.len());
    match passes(program, false, start, rounds) {
        Some(inside) => {
            lemma_direct_passes(program, inside, rounds, i, callee, target);
            match passes(program, true, inside, rounds) {
                Some(found) => {
                    lemma_direct_pass(program, found.summary, true, i, callee, target);
                    let k = choose|k: int|
                        0 <= k < found.call_sites.len() && found.call_sites[k] == made;
                    assert(doubted(found).call_sites[k] == made);
                    assert(doubted(found).call_sites.contains(made));
                },
                None => {},
            }
        },
        None => {},
    }
}

/// A call that names its callable directly reaches it.
pub proof fn direct_calls_reach_their_target(
    facts: ProjectFacts,
    at: int,
    call: ProgramCallView,
    callee: SyntaxNode,
    target: Seq<char>,
)
    requires
        known_apart(files_in_order(facts)),
        0 <= at < files_in_order(facts).len(),
        call.file == files_in_order(facts)[at].id,
        analyzed_program(facts).calls.contains(call),
        is_in_flow(analyzed_program(facts), call.caller, call.file, call.span, callee),
        direct_target(scope_in(analyzed_program(facts), call.file), callee) == Some(target),
    ensures
        built(facts) matches Ok(snapshot) ==> lists_target(
            snapshot.call_sites,
            files_in_order(facts)[at],
            call.caller,
            call.span,
            target,
        ),
{
    let files = files_in_order(facts);
    let program = analyzed_program(facts);
    let i = choose|i: int| 0 <= i < program.calls.len() && program.calls[i] == call;
    definitions_lie_in_files(files, names_of(files, facts.types@));
    lemma_in_flow(program, call, callee);
    lemma_direct_analysis(program, i, callee, target);
    if built(facts) is Ok {
        lemma_target_listed(
            program,
            program_analysis(program)->Some_0.call_sites,
            at,
            call,
            target,
        );
    }
}

proof fn lemma_target_listed(
    program: ProgramView,
    found: Seq<CallSiteView>,
    at: int,
    call: ProgramCallView,
    target: Seq<char>,
)
    requires
        known_apart(program.files),
        0 <= at < program.files.len(),
        call.file == program.files[at].id,
        found.contains(direct_site(program, call, target)),
    ensures
        lists_target(
            normalized_sites(found),
            program.files[at],
            call.caller,
            call.span,
            target,
        ),
{
    let made = direct_site(program, call, target);
    let key = CallSite::key_view(made);
    let sites = normalized_sites(found);
    let k = choose|k: int| 0 <= k < found.len() && found[k] == made;
    lemma_ascending::<String>(only(target).targets);
    assert(made.targets.to_set().contains(target));
    assert(found[k].targets.contains(target));
    normalizing_keeps_calls(found, key, target);
    let m = choose|m: int|
        0 <= m < sites.len() && CallSite::key_view(#[trigger] sites[m]) == key
            && sites[m].targets.contains(target);
    lemma_found_is_own(program.files, at);
    lemma_key(sites[m], made);
    assert(is_site_of(sites[m], program.files[at], call.caller, call.span, true));
}

} // verus!
