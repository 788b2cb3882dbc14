//! Ordered sets and maps, kept as sorted lists without repeated keys.
use crate::sort::{sorting_keeps_items, sorting_orders_and_permutes, stable_sorted, Ranked};
use crate::text::{lemma_text_order, same_text, views};
use vstd::prelude::*;

verus! {

broadcast use crate::text::group_views;

/// Items of which any two that differ are ranked.
pub trait Key: Ranked {
    proof fn total(a: Self::V, b: Self::V)
        ensures
            a == b || Self::before(a, b) || Self::before(b, a),
            !Self::before(a, a),
    ;

    fn copy(&self) -> (r: Self)
        ensures
            r@ == self@,
    ;
}

impl Key for String {
    proof fn total(a: Seq<char>, b: Seq<char>) {
        lemma_text_order(a, b, a);
    }

    fn copy(&self) -> (r: Self) {
        self.clone()
    }
}

impl Ranked for usize {
    open spec fn before(a: usize, b: usize) -> bool {
        a < b
    }

    fn is_before(&self, other: &Self) -> (r: bool) {
        *self < *other
    }

    proof fn weak_order(a: usize, b: usize, c: usize) {
    }
}

impl Key for usize {
    proof fn total(a: usize, b: usize) {
    }

    fn copy(&self) -> (r: Self) {
        *self
    }
}

/// Each item comes before every later one.
pub open spec fn is_ascending<K: Key>(s: Seq<K::V>) -> bool {
    forall|i: int, j: int| 0 <= i < j < s.len() ==> K::before(#[trigger] s[i], #[trigger] s[j])
}

/// The members of a finite set, each once, in ascending order.
pub open spec fn ascending<K: Key>(set: Set<K::V>) -> Seq<K::V> {
    choose|s: Seq<K::V>| is_ascending::<K>(s) && s.to_set() == set
}

/// An ascending list is the only one that holds its members.
pub proof fn ascending_is_unique<K: Key>(a: Seq<K::V>, b: Seq<K::V>)
    requires
        is_ascending::<K>(a),
        is_ascending::<K>(b),
        a.to_set() == b.to_set(),
    ensures
        a == b,
    decreases a.len(),
{
    if a.len() == 0 {
        if b.len() > 0 {
            assert(b.to_set().contains(b[0]));
            assert(a.contains(b[0]));
        }
        assert(a =~= b);
    } else {
        assert(a.to_set().contains(a[0]));
        assert(b.contains(a[0]));
        let x = a.last();
        let y = b.last();
        assert(a.to_set().contains(x));
        assert(b.to_set().contains(y));
        let i = choose|i: int| 0 <= i < b.len() && b[i] == x;
        let j = choose|j: int| 0 <= j < a.len() && a[j] == y;
        K::total(x, y);
        K::weak_order(x, y, x);
        assert(x == y) by {
            if i < b.len() - 1 {
                assert(K::before(b[i], b[b.len() - 1]));
            }
            if j < a.len() - 1 {
                assert(K::before(a[j], a[a.len() - 1]));
            }
        }
        let p = a.drop_last();
        let q = b.drop_last();
        assert(is_ascending::<K>(p)) by {
            assert forall|m: int, n: int| 0 <= m < n < p.len() implies K::before(
                #[trigger] p[m],
                #[trigger] p[n],
            ) by {
                assert(p[m] == a[m] && p[n] == a[n]);
            }
        }
        assert(is_ascending::<K>(q)) by {
            assert forall|m: int, n: int| 0 <= m < n < q.len() implies K::before(
                #[trigger] q[m],
                #[trigger] q[n],
            ) by {
                assert(q[m] == b[m] && q[n] == b[n]);
            }
        }
        assert(p.to_set() =~= q.to_set()) by {
            assert forall|v: K::V| p.to_set().contains(v) implies q.to_set().contains(v) by {
                let m = choose|m: int| 0 <= m < p.len() && p[m] == v;
                assert(a[m] == v);
                assert(a.to_set().contains(v));
                assert(b.contains(v));
                let n = choose|n: int| 0 <= n < b.len() && b[n] == v;
                assert(K::before(a[m], a[a.len() - 1]));
                K::total(v, v);
                assert(n < q.len());
                assert(q[n] == v);
            }
            assert forall|v: K::V| q.to_set().contains(v) implies p.to_set().contains(v) by {
                let m = choose|m: int| 0 <= m < q.len() && q[m] == v;
                assert(b[m] == v);
                assert(b.to_set().contains(v));
                assert(a.contains(v));
                let n = choose|n: int| 0 <= n < a.len() && a[n] == v;
                assert(K::before(b[m], b[b.len() - 1]));
                K::total(v, v);
                assert(n < p.len());
                assert(p[n] == v);
            }
        }
        ascending_is_unique::<K>(p, q);
        assert(a =~= p.push(x));
        assert(b =~= q.push(y));
    }
}

/// A set of keys.
#[derive(Debug)]
pub struct KeySet<K: Key> {
    items: Vec<K>,
}

impl<K: Key> View for KeySet<K> {
    type V = Set<K::V>;

    closed spec fn view(&self) -> Set<K::V> {
        views(self.items@).to_set()
    }
}

impl<K: Key> KeySet<K> {
    #[verifier::type_invariant]
    spec fn sorted(self) -> bool {
        is_ascending::<K>(views(self.items@))
    }

    /// The members in ascending order.
    pub closed spec fn sequence(self) -> Seq<K::V> {
        views(self.items@)
    }

    pub fn new() -> (r: Self)
        ensures
            r@ == Set::<K::V>::empty(),
    {
        let items: Vec<K> = Vec::new();
        assert(views(items@).to_set() =~= Set::<K::V>::empty());
        KeySet { items }
    }

    pub fn len(&self) -> (n: usize)
        ensures
            n == self@.len(),
            n == self.sequence().len(),
            self@.finite(),
            self.sequence() == ascending::<K>(self@),
            is_ascending::<K>(self.sequence()),
            self.sequence().no_duplicates(),
            self.sequence().to_set() == self@,
    {
        proof {
            use_type_invariant(self);
            self.lemma_sequence();
        }
        self.items.len()
    }

    proof fn lemma_sequence(self)
        requires
            self.sorted(),
        ensures
            self.sequence() == ascending::<K>(self@),
            is_ascending::<K>(self.sequence()),
            self.sequence().to_set() == self@,
            self@.finite(),
            self@.len() == self.sequence().len(),
            self.sequence().no_duplicates(),
    {
        let s = self.sequence();
        assert(is_ascending::<K>(s) && s.to_set() == self@);
        let t = ascending::<K>(self@);
        assert(is_ascending::<K>(t) && t.to_set() == self@);
        ascending_is_unique::<K>(s, t);
        assert(s.no_duplicates()) by {
            assert forall|i: int, j: int| 0 <= i < s.len() && 0 <= j < s.len() && i != j implies s[i]
                != s[j] by {
                K::total(s[i], s[i]);
                if i < j {
                    assert(K::before(s[i], s[j]));
                } else {
                    assert(K::before(s[j], s[i]));
                }
            }
        }
        s.unique_seq_to_set();
    }

    /// The member at a position of the ascending order.
    pub fn at(&self, i: usize) -> (r: &K)
        requires
            i < self.sequence().len(),
        ensures
            r@ == self.sequence()[i as int],
            self@.contains(r@),
    {
        assert(views(self.items@).to_set().contains(views(self.items@)[i as int]));
        &self.items[i]
    }

    /// Where `key` is, or would be put.
    fn position(&self, key: &K) -> (at: usize)
        ensures
            at <= self.items@.len(),
            forall|j: int| 0 <= j < at ==> K::before(#[trigger] self.items@[j]@, key@),
            forall|j: int|
                at <= j < self.items@.len() ==> !K::before(#[trigger] self.items@[j]@, key@),
    {
        proof {
            use_type_invariant(self);
        }
        let mut low: usize = 0;
        let mut high: usize = self.items.len();
        while low < high
            invariant
                low <= high <= self.items@.len(),
                is_ascending::<K>(views(self.items@)),
                forall|j: int| 0 <= j < low ==> K::before(#[trigger] self.items@[j]@, key@),
                forall|j: int|
                    high <= j < self.items@.len() ==> !K::before(#[trigger] self.items@[j]@, key@),
            decreases high - low,
        {
            let mid: usize = low + (high - low) / 2;
            let ghost m = self.items@[mid as int]@;
            if self.items[mid].is_before(key) {
                proof {
                    assert forall|j: int| 0 <= j < mid + 1 implies K::before(
                        #[trigger] self.items@[j]@,
                        key@,
                    ) by {
                        if j < mid {
                            let s = views(self.items@);
                            assert(K::before(s[j], s[mid as int]));
                            lemma_before_transitive::<K>(self.items@[j]@, m, key@);
                        }
                    }
                }
                low = mid + 1;
            } else {
                proof {
                    assert forall|j: int| mid <= j < self.items@.len() implies !K::before(
                        #[trigger] self.items@[j]@,
                        key@,
                    ) by {
                        if j > mid {
                            let s = views(self.items@);
                            assert(K::before(s[mid as int], s[j]));
                            if K::before(self.items@[j]@, key@) {
                                lemma_before_transitive::<K>(m, self.items@[j]@, key@);
                            }
                        }
                    }
                }
                high = mid;
            }
        }
        low
    }

    /// The position of a member in the ascending order.
    pub fn find(&self, key: &K) -> (r: Option<usize>)
        ensures
            r is Some <==> self@.contains(key@),
            r matches Some(i) ==> i < self.sequence().len() && self.sequence()[i as int] == key@,
    {
        let at: usize = self.position(key);
        proof {
            use_type_invariant(self);
            let s = views(self.items@);
            if at < s.len() {
                K::total(s[at as int], key@);
                assert(!K::before(self.items@[at as int]@, key@));
            }
            if self@.contains(key@) {
                let j = choose|j: int| 0 <= j < s.len() && s[j] == key@;
                assert(s[j] == self.items@[j]@);
                K::total(key@, key@);
                assert(j >= at);
                if j > at {
                    assert(K::before(s[at as int], s[j]));
                }
            }
            if at < s.len() && s[at as int] == key@ {
                assert(s.to_set().contains(key@));
            }
        }
        if at < self.items.len() && !key.is_before(&self.items[at]) {
            Some(at)
        } else {
            None
        }
    }

    pub fn contains(&self, key: &K) -> (r: bool)
        ensures
            r == self@.contains(key@),
    {
        self.find(key).is_some()
    }

    /// Adds a key that is not yet a member, and says at which position.
    pub fn add(&mut self, key: K) -> (at: usize)
        requires
            !old(self)@.contains(key@),
        ensures
            final(self)@ == old(self)@.insert(key@),
            at <= old(self).sequence().len(),
            final(self).sequence() == old(self).sequence().insert(at as int, key@),
    {
        let at: usize = self.position(&key);
        proof {
            use_type_invariant(&*self);
        }
        let ghost start = self.items@;
        let ghost set = self@;
        let mut items: Vec<K> = Vec::new();
        std::mem::swap(&mut items, &mut self.items);
        let ghost k = key@;
        items.insert(at, key);
        proof {
            let s = views(start);
            let t = views(items@);
            assert(t =~= s.insert(at as int, k));
            assert forall|i: int, j: int| 0 <= i < j < t.len() implies K::before(
                #[trigger] t[i],
                #[trigger] t[j],
            ) by {
                if i == at {
                    K::total(s[j - 1], k);
                    assert(s[j - 1] == start[j - 1]@);
                    assert(set.contains(s[j - 1])) by {
                        assert(s.to_set().contains(s[j - 1]));
                    }
                } else if j == at {
                    assert(t[i] == start[i]@);
                } else {
                    let a = if i < at { i } else { i - 1 };
                    let b = if j < at { j } else { j - 1 };
                    assert(K::before(s[a], s[b]));
                }
            }
            assert(t.to_set() =~= set.insert(k)) by {
                assert forall|v: K::V| t.to_set().contains(v) implies set.insert(k).contains(v) by {
                    let i = choose|i: int| 0 <= i < t.len() && t[i] == v;
                    if i != at {
                        let a = if i < at { i } else { i - 1 };
                        assert(s[a] == v);
                        assert(s.to_set().contains(v));
                    }
                }
                assert forall|v: K::V| set.insert(k).contains(v) implies t.to_set().contains(v) by {
                    if v == k {
                        assert(t[at as int] == k);
                    } else {
                        assert(s.to_set().contains(v));
                        let a = choose|a: int| 0 <= a < s.len() && s[a] == v;
                        let i = if a < at { a } else { a + 1 };
                        assert(t[i] == v);
                    }
                }
            }
        }
        self.items = items;
        at
    }

    /// Takes the key at a position out.
    pub fn drop_at(&mut self, at: usize)
        requires
            at < old(self).sequence().len(),
        ensures
            final(self)@ == old(self)@.remove(old(self).sequence()[at as int]),
            final(self).sequence() == old(self).sequence().remove(at as int),
    {
        proof {
            use_type_invariant(&*self);
        }
        let ghost start = self.items@;
        let mut items: Vec<K> = Vec::new();
        std::mem::swap(&mut items, &mut self.items);
        let _gone = items.remove(at);
        proof {
            let s = views(start);
            let t = views(items@);
            assert(t =~= s.remove(at as int));
            assert forall|i: int, j: int| 0 <= i < j < t.len() implies K::before(
                #[trigger] t[i],
                #[trigger] t[j],
            ) by {
                let a = if i < at { i } else { i + 1 };
                let b = if j < at { j } else { j + 1 };
                assert(K::before(s[a], s[b]));
            }
            let k = s[at as int];
            assert(t.to_set() =~= s.to_set().remove(k)) by {
                assert forall|v: K::V| t.to_set().contains(v) implies s.to_set().remove(k).contains(
                    v,
                ) by {
                    let i = choose|i: int| 0 <= i < t.len() && t[i] == v;
                    let a = if i < at { i } else { i + 1 };
                    assert(s[a] == v);
                    K::total(v, v);
                    if a < at {
                        assert(K::before(s[a], s[at as int]));
                    } else {
                        assert(K::before(s[at as int], s[a]));
                    }
                }
                assert forall|v: K::V| s.to_set().remove(k).contains(v) implies t.to_set().contains(
                    v,
                ) by {
                    let a = choose|a: int| 0 <= a < s.len() && s[a] == v;
                    let i = if a < at { a } else { a - 1 };
                    assert(t[i] == v);
                }
            }
        }
        self.items = items;
    }

    /// A set with the same members.
    pub fn copy(&self) -> (r: Self)
        ensures
            r@ == self@,
            r.sequence() == self.sequence(),
    {
        proof {
            use_type_invariant(self);
        }
        let n: usize = self.items.len();
        let mut items: Vec<K> = Vec::new();
        let mut i: usize = 0;
        while i < n
            invariant
                i <= n,
                n == self.items@.len(),
                views(items@) == views(self.items@).take(i as int),
            decreases n - i,
        {
            items.push(self.items[i].copy());
            i += 1;
            assert(views(self.items@).take(i as int) =~= views(self.items@).take(i - 1).push(
                self.items@[i - 1]@,
            ));
        }
        assert(views(self.items@).take(n as int) =~= views(self.items@));
        KeySet { items }
    }

    /// Whether two sets have the same members.
    pub fn same(&self, other: &Self) -> (r: bool)
        ensures
            r == (self@ == other@),
            r == (self.sequence() == other.sequence()),
    {
        proof {
            use_type_invariant(self);
            use_type_invariant(other);
            if self@ == other@ {
                ascending_is_unique::<K>(self.sequence(), other.sequence());
            }
        }
        let n: usize = self.items.len();
        if n != other.items.len() {
            return false;
        }
        let mut i: usize = 0;
        while i < n
            invariant
                i <= n,
                n == self.items@.len(),
                n == other.items@.len(),
                self@ == other@ <==> self.sequence() == other.sequence(),
                forall|j: int| 0 <= j < i ==> #[trigger] self.sequence()[j] == other.sequence()[j],
            decreases n - i,
        {
            proof {
                K::total(self.items@[i as int]@, other.items@[i as int]@);
                K::total(self.items@[i as int]@, self.items@[i as int]@);
            }
            if self.items[i].is_before(&other.items[i]) || other.items[i].is_before(
                &self.items[i],
            ) {
                assert(self.sequence()[i as int] != other.sequence()[i as int]);
                return false;
            }
            i += 1;
        }
        assert(self.sequence() =~= other.sequence());
        true
    }

    /// Adds every member of another set.
    pub fn extend(&mut self, other: &Self)
        ensures
            final(self)@ == old(self)@.union(other@),
    {
        let ghost start = self@;
        let n: usize = other.len();
        let mut i: usize = 0;
        while i < n
            invariant
                i <= n,
                n == other.sequence().len(),
                self@ == start.union(other.sequence().take(i as int).to_set()),
            decreases n - i,
        {
            let key = other.at(i);
            proof {
                lemma_taken(other.sequence(), i as int);
            }
            let ghost held = self@;
            self.insert(key.copy());
            proof {
                let s = other.sequence();
                assert forall|x: K::V| self@.contains(x) <==> start.union(
                    s.take(i + 1).to_set(),
                ).contains(x) by {
                    assert(held.contains(x) <==> start.contains(x) || s.take(i as int).contains(x));
                    assert(s.take(i + 1).contains(x) <==> s.take(i as int).contains(x) || x
                        == s[i as int]);
                }
                assert(self@ =~= start.union(s.take(i + 1).to_set()));
            }
            i += 1;
        }
        assert(other.sequence().take(n as int) =~= other.sequence());
    }

    pub fn insert(&mut self, key: K)
        ensures
            final(self)@ == old(self)@.insert(key@),
    {
        if self.contains(&key) {
            assert(self@.insert(key@) =~= self@);
        } else {
            let _at: usize = self.add(key);
        }
    }
}

/// The order of keys is transitive.
pub proof fn lemma_before_transitive<K: Key>(a: K::V, b: K::V, c: K::V)
    requires
        K::before(a, b),
        K::before(b, c),
    ensures
        K::before(a, c),
{
    K::weak_order(a, b, c);
    K::weak_order(b, c, a);
    K::weak_order(c, a, b);
    K::weak_order(a, c, b);
    K::weak_order(b, a, c);
    K::weak_order(c, b, a);
    K::total(a, c);
    K::total(a, b);
    K::total(b, c);
}

/// The map that takes each key of a list without repeats to the value at the same position.
pub open spec fn paired<A, V>(keys: Seq<A>, values: Seq<V>) -> Map<A, V> {
    Map::new(|k: A| keys.contains(k), |k: A| values[keys.index_of(k)])
}

proof fn lemma_listed_once<A>(set: Set<A>)
    requires
        set.finite(),
    ensures
        set.to_seq().no_duplicates(),
    decreases set.len(),
{
    if set.len() > 0 {
        let x = set.choose();
        let rest = set.remove(x);
        lemma_listed_once(rest);
        rest.lemma_to_seq_to_set_id();
        assert(!rest.to_seq().contains(x)) by {
            assert(rest.to_seq().to_set().contains(x) == rest.to_seq().contains(x));
        }
    }
}

/// Every finite set has its ascending list.
pub proof fn lemma_ascending<K: Key>(set: Set<K::V>)
    requires
        set.finite(),
    ensures
        is_ascending::<K>(ascending::<K>(set)),
        ascending::<K>(set).to_set() == set,
        ascending::<K>(set).no_duplicates(),
{
    let list = set.to_seq();
    let sorted = stable_sorted::<K>(list);
    lemma_listed_once(set);
    set.lemma_to_seq_to_set_id();
    sorting_orders_and_permutes::<K>(list);
    sorting_keeps_items::<K>(list);
    broadcast use vstd::seq_lib::group_to_multiset_ensures;

    assert(sorted.no_duplicates()) by {
        list.lemma_multiset_has_no_duplicates();
        sorted.lemma_multiset_has_no_duplicates_conv();
    }
    assert forall|i: int, j: int| 0 <= i < j < sorted.len() implies K::before(
        #[trigger] sorted[i],
        #[trigger] sorted[j],
    ) by {
        K::total(sorted[i], sorted[j]);
    }
    assert(sorted.to_set() =~= set) by {
        assert forall|x: K::V| sorted.to_set().contains(x) <==> set.contains(x) by {
            assert(sorted.contains(x) <==> list.contains(x));
            assert(list.to_set().contains(x) <==> list.contains(x));
        }
    }
    assert(is_ascending::<K>(sorted) && sorted.to_set() == set);
    lemma_ascending_distinct::<K>(ascending::<K>(set));
}

/// An ascending list repeats nothing.
pub proof fn lemma_ascending_distinct<K: Key>(s: Seq<K::V>)
    requires
        is_ascending::<K>(s),
    ensures
        s.no_duplicates(),
{
    assert forall|i: int, j: int| 0 <= i < s.len() && 0 <= j < s.len() && i != j implies s[i] != s[j] by {
        K::total(s[i], s[i]);
        if i < j {
            assert(K::before(s[i], s[j]));
        } else {
            assert(K::before(s[j], s[i]));
        }
    }
}

pub proof fn lemma_paired_at<A, V>(keys: Seq<A>, values: Seq<V>, i: int)
    requires
        keys.no_duplicates(),
        0 <= i < keys.len(),
    ensures
        paired(keys, values).contains_key(keys[i]),
        paired(keys, values)[keys[i]] == values[i],
{
    let j = keys.index_of(keys[i]);
    assert(keys.contains(keys[i]));
    assert(0 <= j < keys.len() && keys[j] == keys[i]);
}

pub proof fn lemma_paired_add<A, V>(keys: Seq<A>, values: Seq<V>, at: int, key: A, value: V)
    requires
        keys.no_duplicates(),
        keys.len() == values.len(),
        !keys.contains(key),
        0 <= at <= keys.len(),
    ensures
        paired(keys.insert(at, key), values.insert(at, value)) == paired(keys, values).insert(
            key,
            value,
        ),
        keys.insert(at, key).no_duplicates(),
{
    let k2 = keys.insert(at, key);
    let v2 = values.insert(at, value);
    assert(k2.no_duplicates()) by {
        assert forall|i: int, j: int| 0 <= i < k2.len() && 0 <= j < k2.len() && i != j implies k2[i]
            != k2[j] by {
            let a = if i < at { i } else { i - 1 };
            let b = if j < at { j } else { j - 1 };
            if i == at {
                assert(k2[j] == keys[b]);
                assert(keys.contains(keys[b]));
            } else if j == at {
                assert(k2[i] == keys[a]);
                assert(keys.contains(keys[a]));
            } else {
                assert(k2[i] == keys[a] && k2[j] == keys[b]);
            }
        }
    }
    let m = paired(k2, v2);
    let n = paired(keys, values).insert(key, value);
    assert forall|k: A| m.contains_key(k) <==> n.contains_key(k) by {
        if k2.contains(k) {
            let i = choose|i: int| 0 <= i < k2.len() && k2[i] == k;
            if i != at {
                let a = if i < at { i } else { i - 1 };
                assert(keys[a] == k);
            }
        }
        if keys.contains(k) {
            let a = choose|a: int| 0 <= a < keys.len() && keys[a] == k;
            let i = if a < at { a } else { a + 1 };
            assert(k2[i] == k);
        }
        if k == key {
            assert(k2[at] == k);
        }
    }
    assert forall|k: A| m.contains_key(k) implies m[k] == n[k] by {
        let i = choose|i: int| 0 <= i < k2.len() && k2[i] == k;
        lemma_paired_at(k2, v2, i);
        if i != at {
            let a = if i < at { i } else { i - 1 };
            assert(keys[a] == k);
            lemma_paired_at(keys, values, a);
            assert(k != key) by {
                assert(k2[at] == key);
            }
        }
    }
    assert(m =~= n);
}

pub proof fn lemma_paired_set<A, V>(keys: Seq<A>, values: Seq<V>, at: int, value: V)
    requires
        keys.no_duplicates(),
        keys.len() == values.len(),
        0 <= at < keys.len(),
    ensures
        paired(keys, values.update(at, value)) == paired(keys, values).insert(keys[at], value),
{
    let m = paired(keys, values.update(at, value));
    let n = paired(keys, values).insert(keys[at], value);
    assert forall|k: A| m.contains_key(k) implies m[k] == n[k] by {
        let i = choose|i: int| 0 <= i < keys.len() && keys[i] == k;
        lemma_paired_at(keys, values, i);
        lemma_paired_at(keys, values.update(at, value), i);
    }
    assert(m =~= n);
}

pub proof fn lemma_paired_drop<A, V>(keys: Seq<A>, values: Seq<V>, at: int)
    requires
        keys.no_duplicates(),
        keys.len() == values.len(),
        0 <= at < keys.len(),
    ensures
        paired(keys.remove(at), values.remove(at)) == paired(keys, values).remove(keys[at]),
        keys.remove(at).no_duplicates(),
{
    let k2 = keys.remove(at);
    let v2 = values.remove(at);
    let m = paired(k2, v2);
    let n = paired(keys, values).remove(keys[at]);
    assert(k2.no_duplicates());
    assert forall|k: A| m.contains_key(k) <==> n.contains_key(k) by {
        if k2.contains(k) {
            let i = choose|i: int| 0 <= i < k2.len() && k2[i] == k;
            let a = if i < at { i } else { i + 1 };
            assert(keys[a] == k);
        }
        if keys.contains(k) && k != keys[at] {
            let a = choose|a: int| 0 <= a < keys.len() && keys[a] == k;
            let i = if a < at { a } else { a - 1 };
            assert(k2[i] == k);
        }
    }
    assert forall|k: A| m.contains_key(k) implies m[k] == n[k] by {
        let i = choose|i: int| 0 <= i < k2.len() && k2[i] == k;
        let a = if i < at { i } else { i + 1 };
        lemma_paired_at(k2, v2, i);
        lemma_paired_at(keys, values, a);
    }
    assert(m =~= n);
}

/// A map from keys to values.
#[derive(Debug)]
pub struct KeyMap<K: Key, V> {
    keys: KeySet<K>,
    values: Vec<V>,
}

impl<K: Key, V> View for KeyMap<K, V> {
    type V = Map<K::V, V>;

    closed spec fn view(&self) -> Map<K::V, V> {
        paired(self.keys.sequence(), self.values@)
    }
}

impl<K: Key, V> KeyMap<K, V> {
    #[verifier::type_invariant]
    spec fn matched(self) -> bool {
        self.keys.sequence().len() == self.values@.len()
    }

    /// The keys in ascending order.
    pub closed spec fn sequence(self) -> Seq<K::V> {
        self.keys.sequence()
    }

    pub fn new() -> (r: Self)
        ensures
            r@ == Map::<K::V, V>::empty(),
            r.sequence().len() == 0,
    {
        let keys = KeySet::new();
        let values: Vec<V> = Vec::new();
        let n: usize = keys.len();
        assert(keys.sequence() =~= Seq::empty());
        let r = KeyMap { keys, values };
        assert(r@ =~= Map::<K::V, V>::empty());
        r
    }

    pub fn len(&self) -> (n: usize)
        ensures
            n == self.sequence().len(),
            self@.dom().finite(),
            self@.dom() == self.sequence().to_set(),
            self.sequence() == ascending::<K>(self@.dom()),
            is_ascending::<K>(self.sequence()),
            self.sequence().no_duplicates(),
    {
        let n: usize = self.keys.len();
        proof {
            use_type_invariant(&self.keys);
            self.keys.lemma_sequence();
            assert(self@.dom() =~= self.sequence().to_set());
            assert(self@.dom() =~= self.keys@);
        }
        n
    }

    pub fn key_at(&self, i: usize) -> (r: &K)
        requires
            i < self.sequence().len(),
        ensures
            r@ == self.sequence()[i as int],
    {
        self.keys.at(i)
    }

    pub fn value_at(&self, i: usize) -> (r: &V)
        requires
            i < self.sequence().len(),
        ensures
            self@.contains_key(self.sequence()[i as int]),
            *r == self@[self.sequence()[i as int]],
    {
        proof {
            use_type_invariant(self);
            use_type_invariant(&self.keys);
            self.keys.lemma_sequence();
            lemma_paired_at(self.keys.sequence(), self.values@, i as int);
        }
        &self.values[i]
    }

    pub fn get(&self, key: &K) -> (r: Option<&V>)
        ensures
            r is Some <==> self@.contains_key(key@),
            r matches Some(v) ==> *v == self@[key@],
    {
        proof {
            use_type_invariant(self);
            use_type_invariant(&self.keys);
            self.keys.lemma_sequence();
            assert(self@.contains_key(key@) <==> self.keys.sequence().to_set().contains(key@));
        }
        match self.keys.find(key) {
            Some(i) => {
                proof {
                    lemma_paired_at(self.keys.sequence(), self.values@, i as int);
                }
                Some(&self.values[i])
            },
            None => None,
        }
    }

    pub fn contains_key(&self, key: &K) -> (r: bool)
        ensures
            r == self@.contains_key(key@),
    {
        self.get(key).is_some()
    }

    pub fn insert(&mut self, key: K, value: V)
        ensures
            final(self)@ == old(self)@.insert(key@, value),
    {
        proof {
            use_type_invariant(&*self);
            use_type_invariant(&self.keys);
            self.keys.lemma_sequence();
        }
        let ghost names = self.keys.sequence();
        let ghost start = self.values@;
        let mut keys: KeySet<K> = KeySet::new();
        let mut values: Vec<V> = Vec::new();
        let found = self.keys.find(&key);
        let none: usize = keys.len();
        assert(keys.sequence() =~= Seq::<K::V>::empty());
        let mut taken = KeyMap { keys, values };
        std::mem::swap(&mut taken, self);
        let KeyMap { keys: mut keys, values: mut values } = taken;
        match found {
            Some(i) => {
                proof {
                    lemma_paired_set(names, start, i as int, value);
                }
                values.set(i, value);
            },
            None => {
                assert(!names.contains(key@)) by {
                    if names.contains(key@) {
                        assert(names.to_set().contains(key@));
                    }
                }
                let ghost k = key@;
                let at: usize = keys.add(key);
                proof {
                    lemma_paired_add(names, start, at as int, k, value);
                }
                values.insert(at, value);
            },
        }
        *self = KeyMap { keys, values };
    }
}

/// Values that can be copied and compared by their view.
pub trait Value: View + Sized {
    fn duplicate(&self) -> (r: Self)
        ensures
            r@ == self@,
    ;

    fn same_value(&self, other: &Self) -> (r: bool)
        ensures
            r == (self@ == other@),
    ;
}

impl Value for String {
    fn duplicate(&self) -> (r: Self) {
        self.clone()
    }

    fn same_value(&self, other: &Self) -> (r: bool) {
        same_text(self.as_str(), other.as_str())
    }
}

/// An ordered map of which the values count by their view.
#[derive(Debug)]
pub struct Table<K: Key, V: Value> {
    map: KeyMap<K, V>,
}

impl<K: Key, V: Value> View for Table<K, V> {
    type V = Map<K::V, V::V>;

    closed spec fn view(&self) -> Map<K::V, V::V> {
        self.map@.map_values(|v: V| v@)
    }
}

impl<K: Key, V: Value> Table<K, V> {
    /// The keys in ascending order.
    pub closed spec fn sequence(self) -> Seq<K::V> {
        self.map.sequence()
    }

    pub fn new() -> (r: Self)
        ensures
            r@ == Map::<K::V, V::V>::empty(),
    {
        let r = Table { map: KeyMap::new() };
        assert(r@ =~= Map::<K::V, V::V>::empty());
        r
    }

    pub fn len(&self) -> (n: usize)
        ensures
            n == self.sequence().len(),
            self@.dom().finite(),
            self@.dom() == self.sequence().to_set(),
            self.sequence() == ascending::<K>(self@.dom()),
            is_ascending::<K>(self.sequence()),
            self.sequence().no_duplicates(),
    {
        let n: usize = self.map.len();
        assert(self@.dom() =~= self.map@.dom());
        n
    }

    pub fn key_at(&self, i: usize) -> (r: &K)
        requires
            i < self.sequence().len(),
        ensures
            r@ == self.sequence()[i as int],
    {
        self.map.key_at(i)
    }

    pub fn value_at(&self, i: usize) -> (r: &V)
        requires
            i < self.sequence().len(),
        ensures
            self@.contains_key(self.sequence()[i as int]),
            r@ == self@[self.sequence()[i as int]],
    {
        self.map.value_at(i)
    }

    pub fn get(&self, key: &K) -> (r: Option<&V>)
        ensures
            r is Some <==> self@.contains_key(key@),
            r matches Some(v) ==> v@ == self@[key@],
    {
        self.map.get(key)
    }

    pub fn contains_key(&self, key: &K) -> (r: bool)
        ensures
            r == self@.contains_key(key@),
    {
        self.map.contains_key(key)
    }

    pub fn insert(&mut self, key: K, value: V)
        ensures
            final(self)@ == old(self)@.insert(key@, value@),
    {
        self.map.insert(key, value);
        assert(self@ =~= old(self)@.insert(key@, value@));
    }

    pub fn copy(&self) -> (r: Self)
        ensures
            r@ == self@,
    {
        let n: usize = self.len();
        let mut r: Self = Table::new();
        let mut i: usize = 0;
        assert(self.sequence().take(0) =~= Seq::empty());
        while i < n
            invariant
                i <= n,
                n == self.sequence().len(),
                self.sequence().no_duplicates(),
                forall|k: K::V| #[trigger]
                    r@.contains_key(k) <==> self.sequence().take(i as int).contains(k),
                forall|k: K::V| r@.contains_key(k) ==> #[trigger] r@[k] == self@[k],
            decreases n - i,
        {
            let key = self.key_at(i);
            let value = self.value_at(i);
            r.insert(key.copy(), value.duplicate());
            proof {
                lemma_taken(self.sequence(), i as int);
            }
            i += 1;
        }
        proof {
            assert(self.sequence().take(n as int) =~= self.sequence());
            assert forall|k: K::V| r@.contains_key(k) <==> self@.contains_key(k) by {
                assert(self.sequence().to_set().contains(k) <==> self.sequence().contains(k));
            }
            assert(r@ =~= self@);
        }
        r
    }

    pub fn same(&self, other: &Self) -> (r: bool)
        ensures
            r == (self@ == other@),
    {
        let n: usize = self.len();
        let m: usize = other.len();
        if n != m {
            return false;
        }
        let mut i: usize = 0;
        while i < n
            invariant
                i <= n,
                n == self.sequence().len(),
                n == other.sequence().len(),
                self.sequence() == ascending::<K>(self@.dom()),
                other.sequence() == ascending::<K>(other@.dom()),
                is_ascending::<K>(self.sequence()),
                forall|j: int|
                    0 <= j < i ==> #[trigger] self.sequence()[j] == other.sequence()[j],
                forall|j: int|
                    0 <= j < i ==> self@[#[trigger] self.sequence()[j]]
                        == other@[self.sequence()[j]],
            decreases n - i,
        {
            let left = self.key_at(i);
            let right = other.key_at(i);
            if left.is_before(right) || right.is_before(left) {
                proof {
                    K::total(left@, left@);
                }
                return false;
            }
            proof {
                K::total(left@, right@);
            }
            if !self.value_at(i).same_value(other.value_at(i)) {
                return false;
            }
            i += 1;
        }
        proof {
            assert(self.sequence() =~= other.sequence());
            assert forall|k: K::V| self@.contains_key(k) implies self@[k] == other@[k] by {
                assert(self.sequence().to_set().contains(k));
                let j = choose|j: int| 0 <= j < n && self.sequence()[j] == k;
                assert(self@[self.sequence()[j]] == other@[self.sequence()[j]]);
            }
            assert(self@ =~= other@);
        }
        true
    }
}

impl<K: Key, V: Value> Value for Table<K, V> {
    fn duplicate(&self) -> (r: Self) {
        self.copy()
    }

    fn same_value(&self, other: &Self) -> (r: bool) {
        self.same(other)
    }
}

/// One more item is taken from a list.
pub proof fn lemma_taken<A>(s: Seq<A>, i: int)
    requires
        0 <= i < s.len(),
    ensures
        forall|x: A|
            #[trigger] s.take(i + 1).contains(x) <==> s.take(i).contains(x) || x == s[i],
        s.take(i + 1).to_set() == s.take(i).to_set().insert(s[i]),
{
    assert forall|x: A| #[trigger] s.take(i + 1).contains(x) <==> s.take(i).contains(x) || x
        == s[i] by {
        if x == s[i] {
            assert(s.take(i + 1)[i] == x);
        }
        if s.take(i).contains(x) {
            let j = choose|j: int| 0 <= j < i && s.take(i)[j] == x;
            assert(s.take(i + 1)[j] == x);
        }
        if s.take(i + 1).contains(x) && x != s[i] {
            let t = s.take(i + 1);
            let j = choose|j: int| 0 <= j < t.len() && t[j] == x;
            assert(s.take(i)[j] == x);
        }
    }
    assert(s.take(i + 1).to_set() =~= s.take(i).to_set().insert(s[i]));
}

} // verus!
