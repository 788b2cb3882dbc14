//! Call sites and the call graph.
use crate::model::{copy_text, copy_texts, CallEdge, CallEdgeView, CallSite, CallSiteView};
use crate::order::{key_before, lemma_key_order, same_key, Keyed, PartView};
use crate::sort::{
    deduped, drop_repeats, in_order, sort_stably, sorting_keeps_items, sorting_orders_and_permutes,
    stable_sorted, Ranked, Repeats,
};
use crate::tables::{ascending, is_ascending, lemma_ascending, lemma_taken, KeySet};
use crate::text::views;
use vstd::prelude::*;
use vstd::string::*;

verus! {

broadcast use crate::text::group_views;

/// The texts of a list, each once, in ascending order.
pub open spec fn sorted_set(items: Seq<Seq<char>>) -> Seq<Seq<char>> {
    ascending::<String>(items.to_set())
}

/// A call site with its targets in ascending order.
pub open spec fn tidied(site: CallSiteView) -> CallSiteView {
    CallSiteView { targets: sorted_set(site.targets), ..site }
}

/// One call site for two of the same call.
pub open spec fn joined_site(first: CallSiteView, second: CallSiteView) -> CallSiteView {
    CallSiteView {
        targets: sorted_set(first.targets + second.targets),
        complete: first.complete && second.complete,
        ..first
    }
}

/// A sorted list of call sites with one call site for each call.
pub open spec fn merged_sites(sites: Seq<CallSiteView>) -> Seq<CallSiteView>
    decreases sites.len(),
{
    if sites.len() == 0 {
        Seq::empty()
    } else {
        with_site(merged_sites(sites.drop_last()), sites.last())
    }
}

/// A list of call sites with one more behind its end.
pub open spec fn with_site(done: Seq<CallSiteView>, site: CallSiteView) -> Seq<CallSiteView> {
    if done.len() > 0 && CallSite::key_view(done.last()) == CallSite::key_view(site) {
        done.drop_last().push(joined_site(done.last(), site))
    } else {
        done.push(site)
    }
}

/// Call sites in order, one for each call, with their targets in order.
pub open spec fn normalized_sites(sites: Seq<CallSiteView>) -> Seq<CallSiteView> {
    merged_sites(stable_sorted::<CallSite>(sites.map_values(|s: CallSiteView| tidied(s))))
}

/// The calls with a key may reach a target.
pub open spec fn may_reach(
    sites: Seq<CallSiteView>,
    key: Seq<PartView>,
    target: Seq<char>,
) -> bool {
    exists|i: int|
        0 <= i < sites.len() && CallSite::key_view(#[trigger] sites[i]) == key
            && sites[i].targets.contains(target)
}

/// The calls with a key list every target.
pub open spec fn all_complete(sites: Seq<CallSiteView>, key: Seq<PartView>) -> bool {
    forall|i: int|
        0 <= i < sites.len() && CallSite::key_view(#[trigger] sites[i]) == key
            ==> sites[i].complete
}

/// A call site with a key is listed.
pub open spec fn has_site(sites: Seq<CallSiteView>, key: Seq<PartView>) -> bool {
    exists|i: int| 0 <= i < sites.len() && CallSite::key_view(#[trigger] sites[i]) == key
}

/// Each key comes before the next one.
pub open spec fn keys_ascend<T: Keyed>(list: Seq<T::V>) -> bool {
    forall|i: int, j: int|
        0 <= i < j < list.len() ==> key_before(
            T::key_view(#[trigger] list[i]),
            T::key_view(#[trigger] list[j]),
        )
}

proof fn lemma_sorted_set(items: Seq<Seq<char>>)
    ensures
        is_ascending::<String>(sorted_set(items)),
        forall|t: Seq<char>| #[trigger] sorted_set(items).contains(t) <==> items.contains(t),
{
    lemma_ascending::<String>(items.to_set());
    assert forall|t: Seq<char>| #[trigger] sorted_set(items).contains(t) <==> items.contains(
        t,
    ) by {
        assert(sorted_set(items).to_set().contains(t) <==> sorted_set(items).contains(t));
        assert(items.to_set().contains(t) <==> items.contains(t));
    }
}

proof fn lemma_concat_contains(a: Seq<Seq<char>>, b: Seq<Seq<char>>, t: Seq<char>)
    ensures
        (a + b).contains(t) <==> a.contains(t) || b.contains(t),
{
    if a.contains(t) {
        let j = choose|j: int| 0 <= j < a.len() && a[j] == t;
        assert((a + b)[j] == t);
    }
    if b.contains(t) {
        let j = choose|j: int| 0 <= j < b.len() && b[j] == t;
        assert((a + b)[a.len() + j] == t);
    }
}

proof fn lemma_with_site(
    done: Seq<CallSiteView>,
    site: CallSiteView,
    key: Seq<PartView>,
    target: Seq<char>,
)
    ensures
        may_reach(with_site(done, site), key, target) <==> may_reach(done, key, target) || (
        CallSite::key_view(site) == key && site.targets.contains(target)),
        all_complete(with_site(done, site), key) <==> all_complete(done, key) && (
        CallSite::key_view(site) == key ==> site.complete),
        has_site(with_site(done, site), key) <==> has_site(done, key) || CallSite::key_view(site)
            == key,
{
    let out = with_site(done, site);
    let n = done.len() as int;
    if n > 0 && CallSite::key_view(done.last()) == CallSite::key_view(site) {
        let joined = joined_site(done.last(), site);
        lemma_sorted_set(done.last().targets + site.targets);
        lemma_concat_contains(done.last().targets, site.targets, target);
        assert(CallSite::key_view(joined) == CallSite::key_view(done.last()));
        assert(out[n - 1] == joined);
        assert(forall|i: int| 0 <= i < n - 1 ==> out[i] == done[i]);
        assert(done[n - 1] == done.last());
        if may_reach(done, key, target) {
            let i = choose|i: int|
                0 <= i < done.len() && CallSite::key_view(#[trigger] done[i]) == key
                    && done[i].targets.contains(target);
            assert(CallSite::key_view(out[i]) == key);
            assert(out[i].targets.contains(target));
        }
        if CallSite::key_view(site) == key && site.targets.contains(target) {
            assert(out[n - 1].targets.contains(target));
        }
        if may_reach(out, key, target) {
            let i = choose|i: int|
                0 <= i < out.len() && CallSite::key_view(#[trigger] out[i]) == key
                    && out[i].targets.contains(target);
            assert(CallSite::key_view(done[i]) == key);
        }
        if has_site(done, key) {
            let i = choose|i: int|
                0 <= i < done.len() && CallSite::key_view(#[trigger] done[i]) == key;
            assert(CallSite::key_view(out[i]) == key);
        }
        if has_site(out, key) {
            let i = choose|i: int|
                0 <= i < out.len() && CallSite::key_view(#[trigger] out[i]) == key;
            assert(CallSite::key_view(done[i]) == key);
        }
        if all_complete(out, key) {
            assert forall|i: int|
                0 <= i < done.len() && CallSite::key_view(#[trigger] done[i])
                    == key implies done[i].complete by {
                assert(CallSite::key_view(out[i]) == key);
            }
            if CallSite::key_view(site) == key {
                assert(out[n - 1].complete);
            }
        }
    } else {
        assert(out[n] == site);
        assert(forall|i: int| 0 <= i < n ==> out[i] == done[i]);
        if may_reach(done, key, target) {
            let i = choose|i: int|
                0 <= i < done.len() && CallSite::key_view(#[trigger] done[i]) == key
                    && done[i].targets.contains(target);
            assert(CallSite::key_view(out[i]) == key);
            assert(out[i].targets.contains(target));
        }
        if may_reach(out, key, target) {
            let i = choose|i: int|
                0 <= i < out.len() && CallSite::key_view(#[trigger] out[i]) == key
                    && out[i].targets.contains(target);
            if i < n {
                assert(CallSite::key_view(done[i]) == key);
            }
        }
        if has_site(done, key) {
            let i = choose|i: int|
                0 <= i < done.len() && CallSite::key_view(#[trigger] done[i]) == key;
            assert(CallSite::key_view(out[i]) == key);
        }
        if has_site(out, key) {
            let i = choose|i: int|
                0 <= i < out.len() && CallSite::key_view(#[trigger] out[i]) == key;
            if i < n {
                assert(CallSite::key_view(done[i]) == key);
            }
        }
        if all_complete(out, key) {
            assert forall|i: int|
                0 <= i < done.len() && CallSite::key_view(#[trigger] done[i])
                    == key implies done[i].complete by {
                assert(CallSite::key_view(out[i]) == key);
            }
        }
    }
}

proof fn lemma_merged_facts(sites: Seq<CallSiteView>, key: Seq<PartView>, target: Seq<char>)
    ensures
        may_reach(merged_sites(sites), key, target) <==> may_reach(sites, key, target),
        all_complete(merged_sites(sites), key) <==> all_complete(sites, key),
        has_site(merged_sites(sites), key) <==> has_site(sites, key),
    decreases sites.len(),
{
    if sites.len() > 0 {
        let rest = sites.drop_last();
        lemma_merged_facts(rest, key, target);
        lemma_with_site(merged_sites(rest), sites.last(), key, target);
        let n = rest.len() as int;
        assert(sites[n] == sites.last());
        assert(forall|i: int| 0 <= i < n ==> rest[i] == sites[i]);
        if may_reach(sites, key, target) {
            let i = choose|i: int|
                0 <= i < sites.len() && CallSite::key_view(#[trigger] sites[i]) == key
                    && sites[i].targets.contains(target);
            if i < n {
                assert(CallSite::key_view(rest[i]) == key);
            }
        }
        if may_reach(rest, key, target) {
            let i = choose|i: int|
                0 <= i < rest.len() && CallSite::key_view(#[trigger] rest[i]) == key
                    && rest[i].targets.contains(target);
            assert(CallSite::key_view(sites[i]) == key);
        }
        if has_site(sites, key) {
            let i = choose|i: int|
                0 <= i < sites.len() && CallSite::key_view(#[trigger] sites[i]) == key;
            if i < n {
                assert(CallSite::key_view(rest[i]) == key);
            }
        }
        if has_site(rest, key) {
            let i = choose|i: int|
                0 <= i < rest.len() && CallSite::key_view(#[trigger] rest[i]) == key;
            assert(CallSite::key_view(sites[i]) == key);
        }
        if all_complete(sites, key) {
            assert forall|i: int|
                0 <= i < rest.len() && CallSite::key_view(#[trigger] rest[i])
                    == key implies rest[i].complete by {
                assert(CallSite::key_view(sites[i]) == key);
            }
        }
        if all_complete(rest, key) && (CallSite::key_view(sites.last()) == key
            ==> sites.last().complete) {
            assert forall|i: int|
                0 <= i < sites.len() && CallSite::key_view(#[trigger] sites[i])
                    == key implies sites[i].complete by {
                if i < n {
                    assert(CallSite::key_view(rest[i]) == key);
                }
            }
        }
    }
}

proof fn lemma_merged_ascend(sites: Seq<CallSiteView>)
    requires
        in_order::<CallSite>(sites),
        forall|i: int| 0 <= i < sites.len() ==> is_ascending::<String>((#[trigger] sites[i]).targets),
    ensures
        keys_ascend::<CallSite>(merged_sites(sites)),
        sites.len() > 0 ==> merged_sites(sites).len() > 0 && CallSite::key_view(
            merged_sites(sites).last(),
        ) == CallSite::key_view(sites.last()),
        forall|i: int|
            0 <= i < merged_sites(sites).len() ==> is_ascending::<String>(
                (#[trigger] merged_sites(sites)[i]).targets,
            ),
    decreases sites.len(),
{
    if sites.len() > 0 {
        let rest = sites.drop_last();
        let last = sites.last();
        assert forall|i: int, j: int| 0 <= i < j < rest.len() implies !CallSite::before(
            #[trigger] rest[j],
            #[trigger] rest[i],
        ) by {
            assert(rest[i] == sites[i] && rest[j] == sites[j]);
        }
        lemma_merged_ascend(rest);
        let done = merged_sites(rest);
        let out = merged_sites(sites);
        if done.len() > 0 {
            lemma_sorted_set(done.last().targets + last.targets);
        }
        assert(is_ascending::<String>(last.targets)) by {
            assert(sites[sites.len() - 1] == last);
        }
        assert forall|i: int, j: int| 0 <= i < j < out.len() implies key_before(
            CallSite::key_view(#[trigger] out[i]),
            CallSite::key_view(#[trigger] out[j]),
        ) by {
            let m = done.len() as int;
            if j < m {
                assert(CallSite::key_view(out[i]) == CallSite::key_view(done[i]));
                assert(CallSite::key_view(out[j]) == CallSite::key_view(done[j]));
            } else {
                let p = sites[sites.len() - 2];
                assert(rest.last() == p);
                assert(!CallSite::before(sites[sites.len() - 1], p));
                let x = CallSite::key_view(done[i]);
                let y = CallSite::key_view(done.last());
                let z = CallSite::key_view(last);
                assert(y == CallSite::key_view(p));
                lemma_key_order(y, z, y);
                lemma_key_order(x, y, z);
                if i < m - 1 {
                    assert(key_before(CallSite::key_view(done[i]), CallSite::key_view(done[m - 1])));
                }
            }
        }
        assert forall|i: int| 0 <= i < out.len() implies is_ascending::<String>(
            (#[trigger] out[i]).targets,
        ) by {
            if i < done.len() - 1 {
                assert(out[i] == done[i]);
            } else if i == done.len() - 1 && i < out.len() - 1 {
                assert(out[i] == done[i]);
            }
        }
    }
}

/// Normalized call sites list each call once, in the order of the keys, and the targets of each
/// call once, in ascending order. What a call may reach, and whether it lists every target, is
/// what all the given call sites of that call say together; no call is lost.
pub proof fn normalizing_keeps_calls(
    sites: Seq<CallSiteView>,
    key: Seq<PartView>,
    target: Seq<char>,
)
    ensures
        keys_ascend::<CallSite>(normalized_sites(sites)),
        forall|i: int|
            0 <= i < normalized_sites(sites).len() ==> is_ascending::<String>(
                (#[trigger] normalized_sites(sites)[i]).targets,
            ),
        has_site(normalized_sites(sites), key) <==> has_site(sites, key),
        may_reach(normalized_sites(sites), key, target) <==> may_reach(sites, key, target),
        all_complete(normalized_sites(sites), key) <==> all_complete(sites, key),
{
    let tidy = sites.map_values(|s: CallSiteView| tidied(s));
    let sorted = stable_sorted::<CallSite>(tidy);
    sorting_orders_and_permutes::<CallSite>(tidy);
    sorting_keeps_items::<CallSite>(tidy);
    assert forall|i: int| 0 <= i < tidy.len() implies is_ascending::<String>(
        (#[trigger] tidy[i]).targets,
    ) && (tidy[i].targets.contains(target) <==> sites[i].targets.contains(target)) by {
        lemma_sorted_set(sites[i].targets);
    }
    assert forall|i: int| 0 <= i < sorted.len() implies is_ascending::<String>(
        (#[trigger] sorted[i]).targets,
    ) by {
        assert(sorted.contains(sorted[i]));
        assert(tidy.contains(sorted[i]));
        let j = choose|j: int| 0 <= j < tidy.len() && tidy[j] == sorted[i];
        assert(is_ascending::<String>(tidy[j].targets));
    }
    lemma_merged_ascend(sorted);
    lemma_merged_facts(sorted, key, target);
    lemma_same_facts(sorted, tidy, key, target);
    assert forall|i: int| 0 <= i < sites.len() implies CallSite::key_view(#[trigger] tidy[i])
        == CallSite::key_view(sites[i]) && tidy[i].complete == sites[i].complete by {}
    if may_reach(sites, key, target) {
        let i = choose|i: int|
            0 <= i < sites.len() && CallSite::key_view(#[trigger] sites[i]) == key
                && sites[i].targets.contains(target);
        assert(CallSite::key_view(tidy[i]) == key && tidy[i].targets.contains(target));
    }
    if may_reach(tidy, key, target) {
        let i = choose|i: int|
            0 <= i < tidy.len() && CallSite::key_view(#[trigger] tidy[i]) == key
                && tidy[i].targets.contains(target);
        assert(CallSite::key_view(sites[i]) == key && sites[i].targets.contains(target));
    }
    if has_site(sites, key) {
        let i = choose|i: int| 0 <= i < sites.len() && CallSite::key_view(#[trigger] sites[i]) == key;
        assert(CallSite::key_view(tidy[i]) == key);
    }
    if has_site(tidy, key) {
        let i = choose|i: int| 0 <= i < tidy.len() && CallSite::key_view(#[trigger] tidy[i]) == key;
        assert(CallSite::key_view(sites[i]) == key);
    }
    if all_complete(tidy, key) {
        assert forall|i: int|
            0 <= i < sites.len() && CallSite::key_view(#[trigger] sites[i])
                == key implies sites[i].complete by {
            assert(CallSite::key_view(tidy[i]) == key);
        }
    }
    if all_complete(sites, key) {
        assert forall|i: int|
            0 <= i < tidy.len() && CallSite::key_view(#[trigger] tidy[i])
                == key implies tidy[i].complete by {
            assert(CallSite::key_view(sites[i]) == key);
        }
    }
}

/// Lists of the same call sites say the same.
proof fn lemma_same_facts(
    a: Seq<CallSiteView>,
    b: Seq<CallSiteView>,
    key: Seq<PartView>,
    target: Seq<char>,
)
    requires
        forall|x: CallSiteView| a.contains(x) <==> b.contains(x),
    ensures
        may_reach(a, key, target) <==> may_reach(b, key, target),
        all_complete(a, key) <==> all_complete(b, key),
        has_site(a, key) <==> has_site(b, key),
{
    lemma_same_facts_one_way(a, b, key, target);
    lemma_same_facts_one_way(b, a, key, target);
}

proof fn lemma_same_facts_one_way(
    a: Seq<CallSiteView>,
    b: Seq<CallSiteView>,
    key: Seq<PartView>,
    target: Seq<char>,
)
    requires
        forall|x: CallSiteView| a.contains(x) <==> b.contains(x),
    ensures
        may_reach(a, key, target) ==> may_reach(b, key, target),
        all_complete(a, key) ==> all_complete(b, key),
        has_site(a, key) ==> has_site(b, key),
{
    if may_reach(a, key, target) {
        let i = choose|i: int|
            0 <= i < a.len() && CallSite::key_view(#[trigger] a[i]) == key
                && a[i].targets.contains(target);
        assert(a.contains(a[i]));
        assert(b.contains(a[i]));
        let j = choose|j: int| 0 <= j < b.len() && b[j] == a[i];
        assert(CallSite::key_view(b[j]) == key);
    }
    if has_site(a, key) {
        let i = choose|i: int| 0 <= i < a.len() && CallSite::key_view(#[trigger] a[i]) == key;
        assert(a.contains(a[i]));
        assert(b.contains(a[i]));
        let j = choose|j: int| 0 <= j < b.len() && b[j] == a[i];
        assert(CallSite::key_view(b[j]) == key);
    }
    if all_complete(a, key) {
        assert forall|i: int|
            0 <= i < b.len() && CallSite::key_view(#[trigger] b[i])
                == key implies b[i].complete by {
            assert(b.contains(b[i]));
            assert(a.contains(b[i]));
            let j = choose|j: int| 0 <= j < a.len() && a[j] == b[i];
            assert(CallSite::key_view(a[j]) == key);
        }
    }
}

/// The texts of a list, each once, in ascending order.
pub fn sorted_texts(items: &Vec<String>) -> (r: Vec<String>)
    ensures
        views(r@) == sorted_set(views(items@)),
{
    let ghost all = views(items@);
    let mut set: KeySet<String> = KeySet::new();
    let n: usize = items.len();
    let mut i: usize = 0;
    assert(all.take(0).to_set() =~= Set::<Seq<char>>::empty());
    while i < n
        invariant
            i <= n,
            n == items@.len(),
            all == views(items@),
            set@ == all.take(i as int).to_set(),
        decreases n - i,
    {
        proof {
            lemma_taken(all, i as int);
        }
        set.insert(items[i].clone());
        i += 1;
    }
    assert(all.take(n as int) =~= all);
    let m: usize = set.len();
    let mut out: Vec<String> = Vec::new();
    let mut j: usize = 0;
    while j < m
        invariant
            j <= m,
            m == set.sequence().len(),
            out@.len() == j,
            forall|k: int| 0 <= k < j ==> (#[trigger] out@[k])@ == set.sequence()[k],
        decreases m - j,
    {
        out.push(set.at(j).clone());
        j += 1;
    }
    assert(views(out@) =~= set.sequence());
    out
}

impl CallSite {
    /// A copy with its targets in ascending order.
    fn tidied(&self) -> (r: CallSite)
        ensures
            r@ == tidied(self@),
    {
        CallSite {
            caller: self.caller.clone(),
            location: self.location.clone(),
            node_id: copy_text(&self.node_id),
            dispatch: self.dispatch.clone(),
            targets: sorted_texts(&self.targets),
            complete: self.complete,
        }
    }

    /// A copy.
    pub fn copied(&self) -> (r: CallSite)
        ensures
            r@ == self@,
    {
        CallSite {
            caller: self.caller.clone(),
            location: self.location.clone(),
            node_id: copy_text(&self.node_id),
            dispatch: self.dispatch.clone(),
            targets: copy_texts(&self.targets),
            complete: self.complete,
        }
    }

    /// One call site for two of the same call.
    fn joined(&self, other: &CallSite) -> (r: CallSite)
        ensures
            r@ == joined_site(self@, other@),
    {
        let mut targets = copy_texts(&self.targets);
        let mut more = copy_texts(&other.targets);
        targets.append(&mut more);
        CallSite {
            caller: self.caller.clone(),
            location: self.location.clone(),
            node_id: copy_text(&self.node_id),
            dispatch: self.dispatch.clone(),
            targets: sorted_texts(&targets),
            complete: self.complete && other.complete,
        }
    }
}

/// Puts call sites in order, one for each call, with their targets in order.
pub fn normalize_call_sites(call_sites: &mut Vec<CallSite>)
    ensures
        views(final(call_sites)@) == normalized_sites(views(old(call_sites)@)),
{
    let ghost all = views(call_sites@);
    let ghost tidy = all.map_values(|s: CallSiteView| tidied(s));
    let n: usize = call_sites.len();
    let mut list: Vec<CallSite> = Vec::new();
    let mut i: usize = 0;
    while i < n
        invariant
            i <= n,
            n == call_sites@.len(),
            all == views(call_sites@),
            tidy == all.map_values(|s: CallSiteView| tidied(s)),
            list@.len() == i,
            forall|j: int| 0 <= j < i ==> (#[trigger] list@[j])@ == tidy[j],
        decreases n - i,
    {
        list.push(call_sites[i].tidied());
        i += 1;
    }
    assert(views(list@) =~= tidy);
    let sorted = sort_stably(list);
    let ghost order = views(sorted@);
    let m: usize = sorted.len();
    let mut merged: Vec<CallSite> = Vec::new();
    let mut k: usize = 0;
    assert(order.take(0) =~= Seq::empty());
    while k < m
        invariant
            k <= m,
            m == sorted@.len(),
            order == views(sorted@),
            views(merged@) == merged_sites(order.take(k as int)),
        decreases m - k,
    {
        proof {
            assert(order.take(k + 1).drop_last() =~= order.take(k as int));
            assert(order.take(k + 1).last() == sorted@[k as int]@);
        }
        let ghost done = views(merged@);
        let last: usize = merged.len();
        if last > 0 && same_key(&merged[last - 1], &sorted[k]) {
            let joined = merged[last - 1].joined(&sorted[k]);
            assert(done.last() == merged@[last - 1]@);
            merged.set(last - 1, joined);
            assert(views(merged@) =~= done.drop_last().push(joined@));
        } else {
            proof {
                if last > 0 {
                    assert(done.last() == merged@[last - 1]@);
                }
            }
            merged.push(sorted[k].copied());
        }
        k += 1;
    }
    assert(order.take(m as int) =~= order);
    *call_sites = merged;
}

/// The edge of a call site to one of its targets.
pub open spec fn edge_of(site: CallSiteView, target: Seq<char>) -> CallEdgeView {
    CallEdgeView {
        caller: site.caller,
        callee: target,
        call_site: site.location,
        node_id: site.node_id,
        dispatch: site.dispatch,
    }
}

/// The edges of call sites to each of their targets.
pub open spec fn edges_of(sites: Seq<CallSiteView>) -> Seq<CallEdgeView>
    decreases sites.len(),
{
    if sites.len() == 0 {
        Seq::empty()
    } else {
        let site = sites.last();
        edges_of(sites.drop_last()) + site.targets.map_values(|t: Seq<char>| edge_of(site, t))
    }
}

impl Repeats for CallEdge {
    open spec fn repeats(a: CallEdgeView, b: CallEdgeView) -> bool {
        CallEdge::key_view(a) == CallEdge::key_view(b)
    }

    fn is_repeated_by(&self, other: &Self) -> (r: bool) {
        same_key(self, other)
    }
}

/// The call graph of call sites.
pub open spec fn call_graph_of(sites: Seq<CallSiteView>) -> Seq<CallEdgeView> {
    deduped::<CallEdge>(stable_sorted::<CallEdge>(edges_of(sites)))
}

/// An edge with a key is listed.
pub open spec fn has_edge(edges: Seq<CallEdgeView>, key: Seq<PartView>) -> bool {
    exists|i: int| 0 <= i < edges.len() && CallEdge::key_view(#[trigger] edges[i]) == key
}

/// The edge of some call site to one of its targets has a key.
pub open spec fn calls_edge(sites: Seq<CallSiteView>, key: Seq<PartView>) -> bool {
    exists|i: int, j: int|
        0 <= i < sites.len() && 0 <= j < sites[i].targets.len() && CallEdge::key_view(
            edge_of(#[trigger] sites[i], #[trigger] sites[i].targets[j]),
        ) == key
}

proof fn lemma_edges(sites: Seq<CallSiteView>, key: Seq<PartView>)
    ensures
        has_edge(edges_of(sites), key) <==> calls_edge(sites, key),
    decreases sites.len(),
{
    if sites.len() > 0 {
        let rest = sites.drop_last();
        let site = sites.last();
        let more = site.targets.map_values(|t: Seq<char>| edge_of(site, t));
        let before = edges_of(rest);
        let all = edges_of(sites);
        let n = rest.len() as int;
        lemma_edges(rest, key);
        assert(all == before + more);
        if has_edge(all, key) {
            let i = choose|i: int| 0 <= i < all.len() && CallEdge::key_view(#[trigger] all[i]) == key;
            if i < before.len() {
                assert(CallEdge::key_view(before[i]) == key);
                let (p, q) = choose|p: int, q: int|
                    0 <= p < rest.len() && 0 <= q < rest[p].targets.len() && CallEdge::key_view(
                        edge_of(#[trigger] rest[p], #[trigger] rest[p].targets[q]),
                    ) == key;
                assert(sites[p] == rest[p]);
                assert(CallEdge::key_view(edge_of(sites[p], sites[p].targets[q])) == key);
            } else {
                let q = i - before.len();
                assert(all[i] == more[q]);
                assert(sites[n] == site);
                assert(CallEdge::key_view(edge_of(sites[n], sites[n].targets[q])) == key);
            }
        }
        if calls_edge(sites, key) {
            let (p, q) = choose|p: int, q: int|
                0 <= p < sites.len() && 0 <= q < sites[p].targets.len() && CallEdge::key_view(
                    edge_of(#[trigger] sites[p], #[trigger] sites[p].targets[q]),
                ) == key;
            if p < n {
                assert(rest[p] == sites[p]);
                assert(CallEdge::key_view(edge_of(rest[p], rest[p].targets[q])) == key);
                assert(calls_edge(rest, key));
                let i = choose|i: int|
                    0 <= i < before.len() && CallEdge::key_view(#[trigger] before[i]) == key;
                assert(CallEdge::key_view(all[i]) == key);
            } else {
                assert(all[before.len() + q] == more[q]);
                assert(CallEdge::key_view(all[before.len() + q]) == key);
            }
        }
    }
}

proof fn lemma_deduped_edges(list: Seq<CallEdgeView>, key: Seq<PartView>)
    requires
        in_order::<CallEdge>(list),
    ensures
        has_edge(deduped::<CallEdge>(list), key) <==> has_edge(list, key),
        keys_ascend::<CallEdge>(deduped::<CallEdge>(list)),
        list.len() > 0 ==> deduped::<CallEdge>(list).len() > 0 && CallEdge::key_view(
            deduped::<CallEdge>(list).last(),
        ) == CallEdge::key_view(list.last()),
    decreases list.len(),
{
    if list.len() > 0 {
        let rest = list.drop_last();
        let last = list.last();
        let n = rest.len() as int;
        assert forall|i: int, j: int| 0 <= i < j < rest.len() implies !CallEdge::before(
            #[trigger] rest[j],
            #[trigger] rest[i],
        ) by {
            assert(rest[i] == list[i] && rest[j] == list[j]);
        }
        lemma_deduped_edges(rest, key);
        let done = deduped::<CallEdge>(rest);
        let out = deduped::<CallEdge>(list);
        let m = done.len() as int;
        if has_edge(list, key) {
            let i = choose|i: int| 0 <= i < list.len() && CallEdge::key_view(#[trigger] list[i]) == key;
            if i < n {
                assert(CallEdge::key_view(rest[i]) == key);
                let k = choose|k: int|
                    0 <= k < done.len() && CallEdge::key_view(#[trigger] done[k]) == key;
                assert(CallEdge::key_view(out[k]) == key);
            } else {
                assert(CallEdge::key_view(out[out.len() - 1]) == key);
            }
        }
        if has_edge(out, key) {
            let k = choose|k: int| 0 <= k < out.len() && CallEdge::key_view(#[trigger] out[k]) == key;
            if k < m {
                assert(out[k] == done[k]);
                assert(CallEdge::key_view(done[k]) == key);
                let i = choose|i: int|
                    0 <= i < rest.len() && CallEdge::key_view(#[trigger] rest[i]) == key;
                assert(CallEdge::key_view(list[i]) == key);
            } else {
                assert(CallEdge::key_view(list[n]) == key);
            }
        }
        assert forall|i: int, j: int| 0 <= i < j < out.len() implies key_before(
            CallEdge::key_view(#[trigger] out[i]),
            CallEdge::key_view(#[trigger] out[j]),
        ) by {
            if j < m {
                assert(out[i] == done[i] && out[j] == done[j]);
            } else {
                let p = list[n - 1];
                assert(rest.last() == p);
                assert(!CallEdge::before(list[n], p));
                let x = CallEdge::key_view(done[i]);
                let y = CallEdge::key_view(done.last());
                let z = CallEdge::key_view(last);
                assert(y == CallEdge::key_view(p));
                lemma_key_order(y, z, y);
                lemma_key_order(x, y, z);
                if i < m - 1 {
                    assert(key_before(CallEdge::key_view(done[i]), CallEdge::key_view(done[m - 1])));
                }
            }
        }
    }
}

/// The call graph has an edge exactly where a call site lists a target, and has it once. A call
/// without a known target gives no edge.
pub proof fn call_graph_has_each_target(sites: Seq<CallSiteView>, key: Seq<PartView>)
    ensures
        has_edge(call_graph_of(sites), key) <==> calls_edge(sites, key),
        keys_ascend::<CallEdge>(call_graph_of(sites)),
{
    let edges = edges_of(sites);
    let sorted = stable_sorted::<CallEdge>(edges);
    lemma_edges(sites, key);
    sorting_orders_and_permutes::<CallEdge>(edges);
    sorting_keeps_items::<CallEdge>(edges);
    lemma_deduped_edges(sorted, key);
    if has_edge(edges, key) {
        let i = choose|i: int| 0 <= i < edges.len() && CallEdge::key_view(#[trigger] edges[i]) == key;
        assert(edges.contains(edges[i]));
        assert(sorted.contains(edges[i]));
        let j = choose|j: int| 0 <= j < sorted.len() && sorted[j] == edges[i];
        assert(CallEdge::key_view(sorted[j]) == key);
    }
    if has_edge(sorted, key) {
        let i = choose|i: int| 0 <= i < sorted.len() && CallEdge::key_view(#[trigger] sorted[i]) == key;
        assert(sorted.contains(sorted[i]));
        assert(edges.contains(sorted[i]));
        let j = choose|j: int| 0 <= j < edges.len() && edges[j] == sorted[i];
        assert(CallEdge::key_view(edges[j]) == key);
    }
}

/// The call graph of call sites.
pub fn call_graph(sites: &Vec<CallSite>) -> (r: Vec<CallEdge>)
    ensures
        views(r@) == call_graph_of(views(sites@)),
{
    let ghost all = views(sites@);
    let mut edges: Vec<CallEdge> = Vec::new();
    let n: usize = sites.len();
    let mut i: usize = 0;
    assert(all.take(0) =~= Seq::empty());
    while i < n
        invariant
            i <= n,
            n == sites@.len(),
            all == views(sites@),
            views(edges@) == edges_of(all.take(i as int)),
        decreases n - i,
    {
        let site = &sites[i];
        let ghost before = views(edges@);
        let ghost more = site@.targets.map_values(|t: Seq<char>| edge_of(site@, t));
        proof {
            assert(all.take(i + 1).drop_last() =~= all.take(i as int));
            assert(all.take(i + 1).last() == site@);
        }
        let m: usize = site.targets.len();
        let mut j: usize = 0;
        assert(before + more.take(0) =~= before);
        while j < m
            invariant
                j <= m,
                m == site.targets@.len(),
                more == site@.targets.map_values(|t: Seq<char>| edge_of(site@, t)),
                views(edges@) == before + more.take(j as int),
            decreases m - j,
        {
            let edge = CallEdge {
                caller: site.caller.clone(),
                callee: site.targets[j].clone(),
                call_site: site.location.clone(),
                node_id: copy_text(&site.node_id),
                dispatch: site.dispatch.clone(),
            };
            assert(edge@ =~= more[j as int]);
            edges.push(edge);
            assert((before + more.take(j as int)).push(more[j as int]) =~= before + more.take(j + 1));
            j += 1;
        }
        assert(more.take(m as int) =~= more);
        i += 1;
    }
    assert(all.take(n as int) =~= all);
    drop_repeats(sort_stably(edges))
}

} // verus!
