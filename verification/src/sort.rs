//! A stable sort, and what it does to the views of its items.
use crate::text::{lemma_text_order, rank_text, text_before, views, Rank};
use vstd::prelude::*;

verus! {

broadcast use crate::text::group_views;

/// Items that are ranked by their view.
pub trait Ranked: View + Sized {
    /// `a` comes strictly before `b`.
    spec fn before(a: Self::V, b: Self::V) -> bool;

    fn is_before(&self, other: &Self) -> (r: bool)
        ensures
            r == Self::before(self@, other@),
    ;

    /// Items in neither order are interchangeable, and the order is consistent.
    proof fn weak_order(a: Self::V, b: Self::V, c: Self::V)
        ensures
            !(Self::before(a, b) && Self::before(b, a)),
            !Self::before(b, a) && !Self::before(c, b) ==> !Self::before(c, a),
    ;
}

/// Where `item` goes in `list`: behind every item at the end that it does not precede.
pub open spec fn slot<T: Ranked>(list: Seq<T::V>, item: T::V) -> int
    decreases list.len(),
{
    if list.len() == 0 {
        0
    } else if T::before(item, list.last()) {
        slot::<T>(list.drop_last(), item)
    } else {
        list.len() as int
    }
}

/// The items in order; items of equal rank keep the order that they had.
pub open spec fn stable_sorted<T: Ranked>(list: Seq<T::V>) -> Seq<T::V>
    decreases list.len(),
{
    if list.len() == 0 {
        list
    } else {
        let rest = stable_sorted::<T>(list.drop_last());
        rest.insert(slot::<T>(rest, list.last()), list.last())
    }
}

/// No item comes before an earlier one.
pub open spec fn in_order<T: Ranked>(list: Seq<T::V>) -> bool {
    forall|i: int, j: int| 0 <= i < j < list.len() ==> !T::before(#[trigger] list[j], #[trigger] list[i])
}

proof fn lemma_slot<T: Ranked>(list: Seq<T::V>, item: T::V)
    ensures
        0 <= slot::<T>(list, item) <= list.len(),
        forall|i: int|
            slot::<T>(list, item) <= i < list.len() ==> T::before(item, #[trigger] list[i]),
        slot::<T>(list, item) > 0 ==> !T::before(item, list[slot::<T>(list, item) - 1]),
    decreases list.len(),
{
    if list.len() > 0 && T::before(item, list.last()) {
        let rest = list.drop_last();
        lemma_slot::<T>(rest, item);
        assert forall|i: int| slot::<T>(list, item) <= i < list.len() implies T::before(
            item,
            #[trigger] list[i],
        ) by {
            if i < rest.len() {
                assert(rest[i] == list[i]);
            }
        }
    }
}

proof fn lemma_insert_in_order<T: Ranked>(list: Seq<T::V>, item: T::V)
    requires
        in_order::<T>(list),
    ensures
        in_order::<T>(list.insert(slot::<T>(list, item), item)),
{
    let at = slot::<T>(list, item);
    let out = list.insert(at, item);
    lemma_slot::<T>(list, item);
    assert forall|i: int, j: int| 0 <= i < j < out.len() implies !T::before(
        #[trigger] out[j],
        #[trigger] out[i],
    ) by {
        if j == at {
            if i + 1 < at {
                T::weak_order(list[i], list[at - 1], item);
                assert(!T::before(list[at - 1], list[i]));
            }
        } else if i == at {
            T::weak_order(item, list[j - 1], item);
        } else {
            let a = if i < at { i } else { i - 1 };
            let b = if j < at { j } else { j - 1 };
            assert(out[i] == list[a] && out[j] == list[b]);
        }
    }
}

/// Sorting puts the items in order, and neither adds nor drops one.
pub proof fn sorting_orders_and_permutes<T: Ranked>(list: Seq<T::V>)
    ensures
        in_order::<T>(stable_sorted::<T>(list)),
        stable_sorted::<T>(list).to_multiset() == list.to_multiset(),
        stable_sorted::<T>(list).len() == list.len(),
    decreases list.len(),
{
    broadcast use vstd::seq_lib::group_to_multiset_ensures;

    if list.len() > 0 {
        let rest = stable_sorted::<T>(list.drop_last());
        sorting_orders_and_permutes::<T>(list.drop_last());
        lemma_slot::<T>(rest, list.last());
        lemma_insert_in_order::<T>(rest, list.last());
        assert(list =~= list.drop_last().push(list.last()));
    }
}

/// Sorting a list that is in order leaves it as it is.
pub proof fn sorting_keeps_order<T: Ranked>(list: Seq<T::V>)
    requires
        in_order::<T>(list),
    ensures
        stable_sorted::<T>(list) == list,
    decreases list.len(),
{
    if list.len() > 0 {
        let rest = list.drop_last();
        assert forall|i: int, j: int| 0 <= i < j < rest.len() implies !T::before(
            #[trigger] rest[j],
            #[trigger] rest[i],
        ) by {
            assert(rest[i] == list[i] && rest[j] == list[j]);
        }
        sorting_keeps_order::<T>(rest);
        if rest.len() > 0 {
            assert(rest.last() == list[list.len() - 2]);
            assert(!T::before(list[list.len() - 1], list[list.len() - 2]));
        }
        assert(rest.insert(rest.len() as int, list.last()) =~= list);
    }
}

/// Each item of the sorted list is one of the given items.
pub proof fn sorting_keeps_items<T: Ranked>(list: Seq<T::V>)
    ensures
        forall|x: T::V| stable_sorted::<T>(list).contains(x) <==> list.contains(x),
{
    broadcast use vstd::seq_lib::group_to_multiset_ensures;

    sorting_orders_and_permutes::<T>(list);
    assert forall|x: T::V| stable_sorted::<T>(list).contains(x) <==> list.contains(x) by {
        assert(stable_sorted::<T>(list).contains(x) <==> stable_sorted::<T>(list).to_multiset().count(
            x,
        ) > 0);
        assert(list.contains(x) <==> list.to_multiset().count(x) > 0);
    }
}

/// Puts one item into its place in a sorted list.
pub fn insert_ranked<T: Ranked>(list: &mut Vec<T>, item: T)
    ensures
        views(final(list)@) == views(old(list)@).insert(
            slot::<T>(views(old(list)@), item@),
            item@,
        ),
{
    let ghost start = list@;
    let mut at: usize = list.len();
    assert(views(start).take(at as int) =~= views(start));
    while at > 0 && item.is_before(&list[at - 1])
        invariant
            at <= list@.len(),
            list@ == start,
            slot::<T>(views(start), item@) == slot::<T>(views(start).take(at as int), item@),
        ensures
            at <= list@.len(),
            list@ == start,
            slot::<T>(views(start), item@) == slot::<T>(views(start).take(at as int), item@),
            at == 0 || !T::before(item@, start[at - 1]@),
        decreases at,
    {
        assert(views(start).take(at as int).drop_last() =~= views(start).take(at - 1));
        assert(views(start).take(at as int).last() == start[at - 1]@);
        at -= 1;
    }
    proof {
        if at > 0 {
            assert(views(start).take(at as int).last() == start[at - 1]@);
        }
    }
    list.insert(at, item);
    assert(views(list@) =~= views(start).insert(at as int, item@));
}

/// Sorts the items; items of equal rank keep the order that they had.
pub fn sort_stably<T: Ranked>(items: Vec<T>) -> (r: Vec<T>)
    ensures
        views(r@) == stable_sorted::<T>(views(items@)),
{
    let ghost all = views(items@);
    let mut rest = items;
    let mut reversed: Vec<T> = Vec::new();
    while rest.len() > 0
        invariant
            rest@.len() + reversed@.len() == all.len(),
            forall|i: int| 0 <= i < rest@.len() ==> (#[trigger] rest@[i])@ == all[i],
            forall|i: int|
                0 <= i < reversed@.len() ==> (#[trigger] reversed@[i])@ == all[all.len() - 1 - i],
        decreases rest@.len(),
    {
        let item = rest.pop();
        match item {
            Some(value) => {
                reversed.push(value);
            },
            None => {},
        }
    }
    let mut out: Vec<T> = Vec::new();
    assert(all.take(0) =~= Seq::empty());
    while reversed.len() > 0
        invariant
            reversed@.len() <= all.len(),
            forall|i: int|
                0 <= i < reversed@.len() ==> (#[trigger] reversed@[i])@ == all[all.len() - 1 - i],
            views(out@) == stable_sorted::<T>(all.take(all.len() - reversed@.len())),
        decreases reversed@.len(),
    {
        let ghost done = all.len() - reversed@.len();
        let item = reversed.pop();
        match item {
            Some(value) => {
                proof {
                    assert(value@ == all[done]);
                    assert(all.take(done + 1).drop_last() =~= all.take(done));
                    assert(all.take(done + 1).last() == all[done]);
                }
                insert_ranked(&mut out, value);
            },
            None => {},
        }
    }
    assert(all.take(all.len() as int) =~= all);
    out
}

/// Items of which one can repeat another.
pub trait Repeats: View + Sized {
    /// Whether `b` repeats `a`.
    spec fn repeats(a: Self::V, b: Self::V) -> bool;

    fn is_repeated_by(&self, other: &Self) -> (r: bool)
        ensures
            r == Self::repeats(self@, other@),
    ;
}

/// A list without the items that repeat the one in front of them.
pub open spec fn deduped<T: Repeats>(list: Seq<T::V>) -> Seq<T::V>
    decreases list.len(),
{
    if list.len() == 0 {
        Seq::empty()
    } else {
        let rest = deduped::<T>(list.drop_last());
        if rest.len() > 0 && T::repeats(rest.last(), list.last()) {
            rest
        } else {
            rest.push(list.last())
        }
    }
}

/// Dropping repeats adds nothing.
pub proof fn dropping_repeats_adds_nothing<T: Repeats>(list: Seq<T::V>, x: T::V)
    ensures
        deduped::<T>(list).contains(x) ==> list.contains(x),
    decreases list.len(),
{
    if list.len() > 0 && deduped::<T>(list).contains(x) {
        let rest = deduped::<T>(list.drop_last());
        dropping_repeats_adds_nothing::<T>(list.drop_last(), x);
        let out = deduped::<T>(list);
        let i = choose|i: int| 0 <= i < out.len() && out[i] == x;
        if i < rest.len() {
            assert(rest[i] == x);
            let j = choose|j: int| 0 <= j < list.drop_last().len() && list.drop_last()[j] == x;
            assert(list[j] == x);
        } else {
            assert(list[list.len() - 1] == x);
        }
    }
}

/// Drops the items that repeat the one in front of them.
pub fn drop_repeats<T: Repeats>(items: Vec<T>) -> (r: Vec<T>)
    ensures
        views(r@) == deduped::<T>(views(items@)),
{
    let ghost all = views(items@);
    let ghost mut done: int = 0;
    let mut out = items;
    let mut i: usize = 0;
    assert(all.take(0) =~= Seq::empty());
    assert(views(out@).take(0) =~= Seq::empty());
    assert(views(out@).skip(0) =~= all.skip(0));
    while i < out.len()
        invariant
            i <= out@.len(),
            0 <= done <= all.len(),
            views(out@).take(i as int) == deduped::<T>(all.take(done)),
            views(out@).skip(i as int) == all.skip(done),
        decreases out@.len() - i,
    {
        let ghost before = views(out@);
        proof {
            assert(before.skip(i as int).len() == all.skip(done).len());
            assert(before.skip(i as int)[0] == before[i as int]);
            assert(all.skip(done)[0] == all[done]);
            assert(all.take(done + 1).drop_last() =~= all.take(done));
            assert(all.take(done + 1).last() == all[done]);
            if i > 0 {
                assert(before.take(i as int).last() == before[i - 1]);
            }
            assert(all.skip(done + 1) =~= all.skip(done).skip(1));
        }
        let repeated = i > 0 && out[i - 1].is_repeated_by(&out[i]);
        if repeated {
            out.remove(i);
            proof {
                assert(views(out@).take(i as int) =~= before.take(i as int));
                assert(views(out@).skip(i as int) =~= before.skip(i as int).skip(1));
            }
        } else {
            proof {
                assert(before.take(i + 1) =~= before.take(i as int).push(before[i as int]));
                assert(before.skip(i + 1) =~= before.skip(i as int).skip(1));
            }
            i += 1;
        }
        proof {
            done = done + 1;
        }
    }
    proof {
        assert(views(out@).skip(i as int).len() == 0);
        assert(all.skip(done).len() == all.len() - done);
        assert(all.take(done) =~= all);
        assert(views(out@).take(i as int) =~= views(out@));
    }
    out
}

impl Ranked for String {
    open spec fn before(a: Seq<char>, b: Seq<char>) -> bool {
        text_before(a, b)
    }

    fn is_before(&self, other: &Self) -> (r: bool) {
        let r = rank_text(self.as_str(), other.as_str());
        match r {
            Rank::Before => true,
            _ => false,
        }
    }

    proof fn weak_order(a: Seq<char>, b: Seq<char>, c: Seq<char>) {
        lemma_text_order(a, b, c);
        lemma_text_order(b, a, c);
        lemma_text_order(b, c, a);
        lemma_text_order(c, b, a);
        lemma_text_order(a, c, b);
        lemma_text_order(c, a, b);
    }
}

} // verus!
