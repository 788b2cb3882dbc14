//! The lattice of callable values, and its laws.
use crate::tables::{ascending, lemma_ascending};
use crate::text::decimal;
use vstd::prelude::*;

verus! {

/// The member that stands for every key of a collection that is not known.
pub open spec fn dynamic_member() -> Seq<char> {
    "\0dynamic"@
}

/// The member of a map lookup that holds the value found.
pub open spec fn map_value_member() -> Seq<char> {
    "\0map-value"@
}

/// How many lengths of one array are told apart.
pub const MAX_TRACKED_ARRAY_LENGTHS: usize = 16;

/// What a value may be called as: a point of the lattice.
#[verifier::ext_equal]
pub struct Callable {
    pub targets: Set<Seq<char>>,
    pub complete: bool,
    pub members: Map<Seq<char>, Callable>,
    pub members_complete: bool,
    pub array_lengths: Option<Set<usize>>,
    pub bottom: bool,
}

/// A value without members and without known targets.
pub open spec fn leaf(complete: bool) -> Callable {
    Callable {
        targets: Set::empty(),
        complete,
        members: Map::empty(),
        members_complete: false,
        array_lengths: None,
        bottom: false,
    }
}

/// A value of which nothing is known.
pub open spec fn unknown() -> Callable {
    leaf(false)
}

/// A value that is not callable.
pub open spec fn plain() -> Callable {
    leaf(true)
}

/// A value that no flow has reached.
pub open spec fn not_reached() -> Callable {
    Callable {
        targets: Set::empty(),
        complete: true,
        members: Map::empty(),
        members_complete: true,
        array_lengths: None,
        bottom: true,
    }
}

/// A value that is one known callable.
pub open spec fn only(target: Seq<char>) -> Callable {
    Callable { targets: Set::empty().insert(target), ..plain() }
}

/// A value joined with a leaf.
pub open spec fn join_leaf(v: Callable, complete: bool) -> Callable
    decreases v,
{
    if v.bottom {
        leaf(complete)
    } else {
        Callable {
            targets: v.targets,
            complete: v.complete && complete,
            members: Map::new(
                |k: Seq<char>| v.members.contains_key(k),
                |k: Seq<char>|
                    if v.members.contains_key(k) {
                        join_leaf(v.members[k], false)
                    } else {
                        unknown()
                    },
            ),
            members_complete: false,
            array_lengths: None,
            bottom: false,
        }
    }
}

/// What holds of a value that comes from one of two flows. A member that one side does not
/// list counts there as not callable when its list is complete, and as unknown otherwise.
pub open spec fn join(left: Callable, right: Callable) -> Callable
    decreases left,
{
    if left.bottom {
        right
    } else if right.bottom {
        left
    } else {
        Callable {
            targets: left.targets.union(right.targets),
            complete: left.complete && right.complete,
            members: Map::new(
                |k: Seq<char>| left.members.contains_key(k) || right.members.contains_key(k),
                |k: Seq<char>|
                    if left.members.contains_key(k) {
                        if right.members.contains_key(k) {
                            join(left.members[k], right.members[k])
                        } else {
                            join_leaf(left.members[k], right.members_complete)
                        }
                    } else {
                        join_leaf(right.members[k], left.members_complete)
                    },
            ),
            members_complete: left.members_complete && right.members_complete,
            array_lengths: match (left.array_lengths, right.array_lengths) {
                (Some(a), Some(b)) => Some(a.union(b)),
                _ => None,
            },
            bottom: false,
        }
    }
}

/// The member under a key, before what was written under unknown keys.
pub open spec fn listed(v: Callable, key: Seq<char>) -> Callable {
    if v.members.contains_key(key) {
        v.members[key]
    } else {
        leaf(v.members_complete)
    }
}

/// What a lookup of a known key may give.
pub open spec fn member_of(v: Callable, key: Seq<char>) -> Callable {
    if v.bottom {
        not_reached()
    } else if v.members.contains_key(dynamic_member()) {
        join(listed(v, key), v.members[dynamic_member()])
    } else {
        listed(v, key)
    }
}

/// The join of a value with the members under the keys of a list, from position `from` on.
pub open spec fn join_from(
    members: Map<Seq<char>, Callable>,
    keys: Seq<Seq<char>>,
    from: int,
    acc: Callable,
) -> Callable
    decreases keys.len() - from,
{
    if 0 <= from < keys.len() {
        join_from(members, keys, from + 1, join(acc, members[keys[from]]))
    } else {
        acc
    }
}

/// What a lookup of an unknown key may give: any member, joined in the order of the keys.
pub open spec fn any_member_of(v: Callable) -> Callable {
    if v.bottom {
        not_reached()
    } else {
        join_from(
            v.members,
            ascending::<String>(v.members.dom()),
            0,
            leaf(v.members_complete),
        )
    }
}

/// The value after `written` was joined into one member.
pub open spec fn with_joined(v: Callable, key: Seq<char>, written: Callable) -> Callable {
    let held = if v.members.contains_key(key) {
        v.members[key]
    } else {
        not_reached()
    };
    Callable { members: v.members.insert(key, join(held, written)), ..v }
}

/// The value after `written` may have been stored in one member. What the member held before may
/// be anything when it is not listed and the list is not complete.
pub open spec fn with_choice(v: Callable, key: Seq<char>, written: Callable) -> Callable {
    if v.members.contains_key(key) || v.members_complete {
        with_joined(v, key, written)
    } else {
        with_member(v, key, join(unknown(), written))
    }
}

/// The value after `written` was stored under an unknown key.
pub open spec fn with_dynamic(v: Callable, written: Callable) -> Callable {
    with_joined(v, dynamic_member(), written)
}

/// A length after one more element.
pub open spec fn longer(n: usize) -> usize {
    if n == usize::MAX {
        n
    } else {
        (n + 1) as usize
    }
}

/// A length after the last element was taken away.
pub open spec fn shorter(n: usize) -> usize {
    if n == 0 {
        n
    } else {
        (n - 1) as usize
    }
}

/// `key` is the position behind the end of an array of one of the lengths.
pub open spec fn is_end(lengths: Set<usize>, key: Seq<char>) -> bool {
    exists|n: usize| lengths.contains(n) && #[trigger] int_key(n as nat) == key
}

/// The value after `written` was joined into the position behind each of its ends.
pub open spec fn with_ends(v: Callable, lengths: Set<usize>, written: Callable) -> Callable {
    Callable {
        members: Map::new(
            |k: Seq<char>| v.members.contains_key(k) || is_end(lengths, k),
            |k: Seq<char>|
                if is_end(lengths, k) {
                    with_joined(v, k, written).members[k]
                } else {
                    v.members[k]
                },
        ),
        ..v
    }
}

/// An array after `written` was pushed. With too many lengths, or none known, the position is
/// taken as unknown.
pub open spec fn with_pushed(v: Callable, written: Callable) -> Callable {
    match v.array_lengths {
        None => with_dynamic(v, written),
        Some(lengths) => {
            let next = lengths.map(|n: usize| longer(n));
            let filled = with_ends(v, lengths, written);
            if next.len() > MAX_TRACKED_ARRAY_LENGTHS {
                with_dynamic(Callable { array_lengths: None, ..filled }, written)
            } else {
                Callable { array_lengths: Some(next), ..filled }
            }
        },
    }
}

/// An array after its last element was taken away.
pub open spec fn with_popped(v: Callable) -> Callable {
    Callable {
        array_lengths: match v.array_lengths {
            Some(lengths) => Some(lengths.map(|n: usize| shorter(n))),
            None => None,
        },
        ..v
    }
}

/// The value after a member was replaced.
pub open spec fn with_member(v: Callable, key: Seq<char>, written: Callable) -> Callable {
    Callable { members: v.members.insert(key, written), ..v }
}

/// The value after `written` replaced what stands at the end of a path of members.
pub open spec fn with_path(v: Callable, path: Seq<Seq<char>>, written: Callable) -> Callable
    decreases path.len(),
{
    if path.len() == 0 {
        written
    } else {
        let base = if v.bottom {
            unknown()
        } else {
            v
        };
        if path.len() == 1 {
            with_member(base, path[0], written)
        } else {
            let held = if base.members.contains_key(path[0]) {
                base.members[path[0]]
            } else {
                unknown()
            };
            with_member(base, path[0], with_path(held, path.drop_first(), written))
        }
    }
}

/// What stands at the end of a path of members.
pub open spec fn at_path(v: Callable, path: Seq<Seq<char>>) -> Callable
    decreases path.len(),
{
    if path.len() == 0 {
        v
    } else {
        at_path(listed(v, path[0]), path.drop_first())
    }
}

/// The value without the members below a depth.
pub open spec fn limited(v: Callable, remaining: nat) -> Callable
    decreases remaining,
{
    if v.bottom || v.members == Map::<Seq<char>, Callable>::empty() {
        v
    } else if remaining == 0 {
        Callable {
            members: Map::empty(),
            members_complete: false,
            array_lengths: None,
            ..v
        }
    } else {
        Callable {
            members: v.members.map_values(|m: Callable| limited(m, (remaining - 1) as nat)),
            ..v
        }
    }
}

/// Members nest no deeper than `n`.
pub open spec fn nests_within(v: Callable, n: nat) -> bool
    decreases n,
{
    forall|k: Seq<char>| #[trigger]
        v.members.contains_key(k) ==> n > 0 && nests_within(v.members[k], (n - 1) as nat)
}

/// A leaf joins as any other value does.
pub proof fn lemma_join_leaf(v: Callable, complete: bool)
    ensures
        join(v, leaf(complete)) == join_leaf(v, complete),
        join(leaf(complete), v) == join_leaf(v, complete),
{
    let p = leaf(complete);
    let x = join(v, p);
    let y = join(p, v);
    let z = join_leaf(v, complete);
    if !v.bottom {
        assert(x.targets =~= z.targets);
        assert(y.targets =~= z.targets);
        assert(x.members =~= z.members);
        assert(y.members =~= z.members);
    }
}

/// Every value that has not been reached, here or in a member, is the same one.
pub open spec fn is_normal(v: Callable) -> bool
    decreases v,
{
    if v.bottom {
        v == not_reached()
    } else {
        forall|k: Seq<char>|
            v.members.contains_key(k) ==> is_normal(#[trigger] v.members[k])
    }
}

/// The order in which two flows are joined does not matter.
pub proof fn join_commutes(a: Callable, b: Callable)
    requires
        is_normal(a),
        is_normal(b),
    ensures
        join(a, b) == join(b, a),
    decreases a,
{
    if !a.bottom && !b.bottom {
        let x = join(a, b);
        let y = join(b, a);
        assert(x.targets =~= y.targets);
        assert(x.array_lengths == y.array_lengths) by {
            match (a.array_lengths, b.array_lengths) {
                (Some(p), Some(q)) => {
                    assert(p.union(q) =~= q.union(p));
                },
                _ => {},
            }
        }
        assert forall|k: Seq<char>| x.members.contains_key(k) implies x.members[k] == y.members[k] by {
            if a.members.contains_key(k) && b.members.contains_key(k) {
                join_commutes(a.members[k], b.members[k]);
            }
        }
        assert(x.members =~= y.members);
    }
}

/// A flow joined with itself adds nothing.
pub proof fn join_is_idempotent(a: Callable)
    ensures
        join(a, a) == a,
    decreases a,
{
    if !a.bottom {
        let x = join(a, a);
        assert(x.targets =~= a.targets);
        match a.array_lengths {
            Some(p) => {
                assert(p.union(p) =~= p);
            },
            None => {},
        }
        assert forall|k: Seq<char>| x.members.contains_key(k) implies x.members[k] == a.members[k] by {
            join_is_idempotent(a.members[k]);
        }
        assert(x.members =~= a.members);
    }
}

proof fn lemma_join_leaf_twice(v: Callable, c: bool, d: bool)
    ensures
        join_leaf(join_leaf(v, c), d) == join_leaf(v, c && d),
    decreases v,
{
    let x = join_leaf(join_leaf(v, c), d);
    let y = join_leaf(v, c && d);
    if v.bottom {
        assert(x.members =~= y.members);
    } else {
        assert forall|k: Seq<char>| v.members.contains_key(k) implies x.members[k] == y.members[k] by {
            lemma_join_leaf_twice(v.members[k], false, false);
        }
        assert(x.members =~= y.members);
    }
}

proof fn lemma_join_leaf_inside(a: Callable, b: Callable, c: bool)
    ensures
        join(join_leaf(a, c), b) == join_leaf(join(a, b), c) || (a.bottom && b.bottom),
        join(a, join_leaf(b, c)) == join_leaf(join(a, b), c) || (a.bottom && b.bottom),
        a.bottom && b.bottom ==> join(join_leaf(a, c), b) == leaf(c),
        a.bottom && b.bottom ==> join(a, join_leaf(b, c)) == leaf(c),
    decreases a,
{
    if a.bottom {
        lemma_join_leaf(b, c);
    } else if b.bottom {
        lemma_join_leaf(a, c);
    } else {
        let x = join(join_leaf(a, c), b);
        let y = join(a, join_leaf(b, c));
        let z = join_leaf(join(a, b), c);
        assert(x.targets =~= z.targets);
        assert(y.targets =~= z.targets);
        assert forall|k: Seq<char>| z.members.contains_key(k) implies x.members[k] == z.members[k]
            && y.members[k] == z.members[k] by {
            if a.members.contains_key(k) && b.members.contains_key(k) {
                lemma_join_leaf_inside(a.members[k], b.members[k], false);
            } else if a.members.contains_key(k) {
                lemma_join_leaf_twice(a.members[k], false, b.members_complete);
                lemma_join_leaf_twice(a.members[k], b.members_complete, false);
            } else {
                lemma_join_leaf_twice(b.members[k], false, a.members_complete);
                lemma_join_leaf_twice(b.members[k], a.members_complete, false);
            }
        }
        assert(x.members =~= z.members);
        assert(y.members =~= z.members);
    }
}

/// Three flows may be joined in either grouping.
pub proof fn join_associates(a: Callable, b: Callable, c: Callable)
    ensures
        join(join(a, b), c) == join(a, join(b, c)),
    decreases a,
{
    if !a.bottom && !b.bottom && !c.bottom {
        let x = join(join(a, b), c);
        let y = join(a, join(b, c));
        assert(x.targets =~= y.targets);
        match (a.array_lengths, b.array_lengths, c.array_lengths) {
            (Some(p), Some(q), Some(r)) => {
                assert(p.union(q).union(r) =~= p.union(q.union(r)));
            },
            _ => {},
        }
        assert forall|k: Seq<char>| x.members.contains_key(k) implies x.members[k] == y.members[k] by {
            let ha = a.members.contains_key(k);
            let hb = b.members.contains_key(k);
            let hc = c.members.contains_key(k);
            if ha && hb && hc {
                join_associates(a.members[k], b.members[k], c.members[k]);
            } else if ha && hb {
                lemma_join_leaf_inside(a.members[k], b.members[k], c.members_complete);
            } else if ha && hc {
                lemma_join_leaf_inside(a.members[k], c.members[k], b.members_complete);
            } else if hb && hc {
                lemma_join_leaf_inside(b.members[k], c.members[k], a.members_complete);
            } else if ha {
                lemma_join_leaf_twice(a.members[k], b.members_complete, c.members_complete);
            } else if hb {
                lemma_join_leaf_twice(b.members[k], a.members_complete, c.members_complete);
            } else {
                lemma_join_leaf_twice(c.members[k], b.members_complete, a.members_complete);
            }
        }
        assert(x.members =~= y.members);
    }
}

/// The key of an array position or of an integer map key.
pub open spec fn int_key(n: nat) -> Seq<char> {
    "int:"@ + decimal(n)
}

/// `v` may be everything that a leaf may be.
pub open spec fn covers_leaf(v: Callable, complete: bool) -> bool
    decreases v,
{
    &&& !v.bottom
    &&& v.complete ==> complete
    &&& !v.members_complete
    &&& v.array_lengths is None
    &&& forall|k: Seq<char>|
        v.members.contains_key(k) ==> covers_leaf(#[trigger] v.members[k], false)
}

/// A leaf may be everything that `v` may be.
pub open spec fn leaf_covers(complete: bool, v: Callable) -> bool
    decreases v,
{
    v.bottom || {
        &&& v.targets == Set::<Seq<char>>::empty()
        &&& complete ==> v.complete
        &&& forall|k: Seq<char>|
            v.members.contains_key(k) ==> leaf_covers(false, #[trigger] v.members[k])
    }
}

/// `v` may be everything that `w` may be: it lists the targets of `w`, here and in every
/// member, and claims to be complete only where `w` is.
pub open spec fn covers(v: Callable, w: Callable) -> bool
    decreases v,
{
    w.bottom || {
        &&& !v.bottom
        &&& w.targets.subset_of(v.targets)
        &&& v.complete ==> w.complete
        &&& v.members_complete ==> w.members_complete
        &&& v.array_lengths matches Some(a) ==> (w.array_lengths matches Some(b) && b.subset_of(a))
        &&& forall|k: Seq<char>|
            #![trigger v.members.contains_key(k)]
            #![trigger w.members.contains_key(k)]
            {
                &&& v.members.contains_key(k) && w.members.contains_key(k) ==> covers(
                    v.members[k],
                    w.members[k],
                )
                &&& v.members.contains_key(k) && !w.members.contains_key(k) ==> covers_leaf(
                    v.members[k],
                    w.members_complete,
                )
                &&& !v.members.contains_key(k) && w.members.contains_key(k) ==> leaf_covers(
                    v.members_complete,
                    w.members[k],
                )
            }
    }
}

pub proof fn covers_is_reflexive(v: Callable)
    ensures
        covers(v, v),
    decreases v,
{
    assert forall|k: Seq<char>| #[trigger] v.members.contains_key(k) implies covers(
        v.members[k],
        v.members[k],
    ) by {
        covers_is_reflexive(v.members[k]);
    }
}

proof fn lemma_covers_leaf(v: Callable, complete: bool)
    ensures
        covers(v, leaf(complete)) == covers_leaf(v, complete),
        covers(leaf(complete), v) == leaf_covers(complete, v),
{
    if covers(v, leaf(complete)) {
        assert forall|k: Seq<char>| v.members.contains_key(k) implies covers_leaf(
            #[trigger] v.members[k],
            false,
        ) by {
            assert(v.members.contains_key(k));
        }
    }
    if covers(leaf(complete), v) && !v.bottom {
        assert(v.targets =~= Set::empty());
        assert forall|k: Seq<char>| v.members.contains_key(k) implies leaf_covers(
            false,
            #[trigger] v.members[k],
        ) by {
            assert(v.members.contains_key(k));
        }
    }
}

proof fn lemma_join_leaf_covers(v: Callable, complete: bool)
    ensures
        covers(join_leaf(v, complete), v),
        covers_leaf(join_leaf(v, complete), complete),
    decreases v,
{
    let x = join_leaf(v, complete);
    if !v.bottom {
        assert forall|k: Seq<char>| v.members.contains_key(k) implies covers(
            #[trigger] x.members[k],
            v.members[k],
        ) && covers_leaf(x.members[k], false) by {
            lemma_join_leaf_covers(v.members[k], false);
        }
    }
}

/// A join covers both of the flows that it joins.
pub proof fn join_covers_both(a: Callable, b: Callable)
    ensures
        covers(join(a, b), a),
        covers(join(a, b), b),
    decreases a,
{
    covers_is_reflexive(a);
    covers_is_reflexive(b);
    if !a.bottom && !b.bottom {
        let x = join(a, b);
        assert forall|k: Seq<char>| #[trigger] x.members.contains_key(k) implies {
            &&& a.members.contains_key(k) ==> covers(x.members[k], a.members[k])
            &&& !a.members.contains_key(k) ==> covers_leaf(x.members[k], a.members_complete)
            &&& b.members.contains_key(k) ==> covers(x.members[k], b.members[k])
            &&& !b.members.contains_key(k) ==> covers_leaf(x.members[k], b.members_complete)
        } by {
            if a.members.contains_key(k) && b.members.contains_key(k) {
                join_covers_both(a.members[k], b.members[k]);
            } else if a.members.contains_key(k) {
                lemma_join_leaf_covers(a.members[k], b.members_complete);
            } else {
                lemma_join_leaf_covers(b.members[k], a.members_complete);
            }
        }
        assert(forall|k: Seq<char>| a.members.contains_key(k) ==> x.members.contains_key(k));
        assert(forall|k: Seq<char>| b.members.contains_key(k) ==> x.members.contains_key(k));
    }
}

proof fn lemma_leaf_below(u: Callable, v: Callable, c: bool)
    requires
        covers(u, v),
        covers_leaf(v, c),
    ensures
        covers_leaf(u, c),
    decreases u,
{
    assert forall|k: Seq<char>| u.members.contains_key(k) implies covers_leaf(
        #[trigger] u.members[k],
        false,
    ) by {
        if v.members.contains_key(k) {
            lemma_leaf_below(u.members[k], v.members[k], false);
        }
    }
}

proof fn lemma_leaf_between(u: Callable, c: bool, w: Callable)
    requires
        covers_leaf(u, c),
        leaf_covers(c, w),
    ensures
        covers(u, w),
    decreases u,
{
    if !w.bottom {
        assert forall|k: Seq<char>| u.members.contains_key(k) && w.members.contains_key(k) implies covers(
            u.members[k],
            w.members[k],
        ) by {
            lemma_leaf_between(u.members[k], false, w.members[k]);
        }
        assert forall|k: Seq<char>| u.members.contains_key(k) implies covers_leaf(
            #[trigger] u.members[k],
            w.members_complete,
        ) by {
            assert(covers_leaf(u.members[k], false));
        }
    }
}

proof fn lemma_leaf_above(c: bool, v: Callable, w: Callable)
    requires
        leaf_covers(c, v),
        covers(v, w),
    ensures
        leaf_covers(c, w),
    decreases w,
{
    if !w.bottom {
        assert(w.targets =~= Set::<Seq<char>>::empty());
        assert forall|k: Seq<char>| w.members.contains_key(k) implies leaf_covers(
            false,
            #[trigger] w.members[k],
        ) by {
            if v.members.contains_key(k) {
                lemma_leaf_above(false, v.members[k], w.members[k]);
            }
        }
    }
}

/// Covering carries over from one value to the next.
pub proof fn covers_is_transitive(u: Callable, v: Callable, w: Callable)
    requires
        covers(u, v),
        covers(v, w),
    ensures
        covers(u, w),
    decreases u,
{
    if !w.bottom {
        assert forall|k: Seq<char>|
            #![trigger u.members.contains_key(k)]
            #![trigger w.members.contains_key(k)]
            {
                &&& u.members.contains_key(k) && w.members.contains_key(k) ==> covers(
                    u.members[k],
                    w.members[k],
                )
                &&& u.members.contains_key(k) && !w.members.contains_key(k) ==> covers_leaf(
                    u.members[k],
                    w.members_complete,
                )
                &&& !u.members.contains_key(k) && w.members.contains_key(k) ==> leaf_covers(
                    u.members_complete,
                    w.members[k],
                )
            } by {
            let hv = v.members.contains_key(k);
            if u.members.contains_key(k) && w.members.contains_key(k) {
                if hv {
                    covers_is_transitive(u.members[k], v.members[k], w.members[k]);
                } else {
                    lemma_leaf_between(u.members[k], v.members_complete, w.members[k]);
                }
            } else if u.members.contains_key(k) {
                if hv {
                    lemma_leaf_below(u.members[k], v.members[k], w.members_complete);
                }
            } else if w.members.contains_key(k) {
                if hv {
                    lemma_leaf_above(u.members_complete, v.members[k], w.members[k]);
                }
            }
        }
    }
}

proof fn lemma_covers_join_leaf(u: Callable, a: Callable, c: bool)
    requires
        covers(u, a),
        covers_leaf(u, c),
    ensures
        covers(u, join_leaf(a, c)),
    decreases u,
{
    lemma_covers_leaf(u, c);
    let x = join_leaf(a, c);
    if !a.bottom {
        assert forall|k: Seq<char>| u.members.contains_key(k) && a.members.contains_key(k) implies covers(
            u.members[k],
            #[trigger] x.members[k],
        ) by {
            lemma_covers_join_leaf(u.members[k], a.members[k], false);
        }
        assert forall|k: Seq<char>|
            !u.members.contains_key(k) && a.members.contains_key(k) implies leaf_covers(
            u.members_complete,
            #[trigger] x.members[k],
        ) by {
            lemma_leaf_covers_join_leaf(false, a.members[k], false);
        }
    }
}

proof fn lemma_leaf_covers_join_leaf(c: bool, a: Callable, d: bool)
    requires
        leaf_covers(c, a),
        c ==> d,
    ensures
        leaf_covers(c, join_leaf(a, d)),
    decreases a,
{
    let x = join_leaf(a, d);
    if !a.bottom {
        assert forall|k: Seq<char>| a.members.contains_key(k) implies leaf_covers(
            false,
            #[trigger] x.members[k],
        ) by {
            lemma_leaf_covers_join_leaf(false, a.members[k], false);
        }
    }
}

proof fn lemma_leaf_covers_join(c: bool, a: Callable, b: Callable)
    requires
        leaf_covers(c, a),
        leaf_covers(c, b),
    ensures
        leaf_covers(c, join(a, b)),
    decreases a,
{
    let x = join(a, b);
    if !a.bottom && !b.bottom {
        assert(x.targets =~= Set::<Seq<char>>::empty());
        assert forall|k: Seq<char>| x.members.contains_key(k) implies leaf_covers(
            false,
            #[trigger] x.members[k],
        ) by {
            if a.members.contains_key(k) && b.members.contains_key(k) {
                lemma_leaf_covers_join(false, a.members[k], b.members[k]);
            } else if a.members.contains_key(k) {
                lemma_leaf_covers_join_leaf(false, a.members[k], b.members_complete);
            } else {
                lemma_leaf_covers_join_leaf(false, b.members[k], a.members_complete);
            }
        }
    }
}

/// A join claims no more than its flows require: what covers both flows covers their join.
pub proof fn join_is_least(u: Callable, a: Callable, b: Callable)
    requires
        covers(u, a),
        covers(u, b),
    ensures
        covers(u, join(a, b)),
    decreases u,
{
    let x = join(a, b);
    if !a.bottom && !b.bottom {
        assert forall|k: Seq<char>|
            #![trigger u.members.contains_key(k)]
            #![trigger x.members.contains_key(k)]
            {
                &&& u.members.contains_key(k) && x.members.contains_key(k) ==> covers(
                    u.members[k],
                    x.members[k],
                )
                &&& u.members.contains_key(k) && !x.members.contains_key(k) ==> covers_leaf(
                    u.members[k],
                    x.members_complete,
                )
                &&& !u.members.contains_key(k) && x.members.contains_key(k) ==> leaf_covers(
                    u.members_complete,
                    x.members[k],
                )
            } by {
            let hu = u.members.contains_key(k);
            let ha = a.members.contains_key(k);
            let hb = b.members.contains_key(k);
            if hu && ha && hb {
                join_is_least(u.members[k], a.members[k], b.members[k]);
            } else if hu && ha {
                lemma_covers_join_leaf(u.members[k], a.members[k], b.members_complete);
            } else if hu && hb {
                lemma_covers_join_leaf(u.members[k], b.members[k], a.members_complete);
            } else if ha && hb {
                lemma_leaf_covers_join(u.members_complete, a.members[k], b.members[k]);
            } else if ha {
                lemma_leaf_covers_join_leaf(u.members_complete, a.members[k], b.members_complete);
            } else if hb {
                lemma_leaf_covers_join_leaf(u.members_complete, b.members[k], a.members_complete);
            }
        }
    }
}

/// What was stored under an unknown key may come back from the lookup of any key.
pub proof fn dynamic_write_is_seen(v: Callable, written: Callable, key: Seq<char>)
    requires
        !v.bottom,
    ensures
        covers(member_of(with_dynamic(v, written), key), written),
{
    let held = if v.members.contains_key(dynamic_member()) {
        v.members[dynamic_member()]
    } else {
        not_reached()
    };
    let stored = join(held, written);
    let x = with_dynamic(v, written);
    join_covers_both(held, written);
    join_covers_both(listed(x, key), stored);
    covers_is_transitive(member_of(x, key), stored, written);
}

proof fn lemma_join_from_covers(
    members: Map<Seq<char>, Callable>,
    keys: Seq<Seq<char>>,
    from: int,
    acc: Callable,
    j: int,
)
    requires
        0 <= from <= keys.len(),
    ensures
        covers(join_from(members, keys, from, acc), acc),
        from <= j < keys.len() ==> covers(join_from(members, keys, from, acc), members[keys[j]]),
    decreases keys.len() - from,
{
    if from < keys.len() {
        let next = join(acc, members[keys[from]]);
        lemma_join_from_covers(members, keys, from + 1, next, j);
        join_covers_both(acc, members[keys[from]]);
        covers_is_transitive(join_from(members, keys, from, acc), next, acc);
        covers_is_transitive(join_from(members, keys, from, acc), next, members[keys[from]]);
    } else {
        covers_is_reflexive(acc);
    }
}

/// The lookup of an unknown key covers the lookup of each key.
pub proof fn any_member_covers_each(v: Callable, key: Seq<char>)
    requires
        v.members.dom().finite(),
    ensures
        covers(any_member_of(v), member_of(v, key)),
{
    if !v.bottom {
        let keys = ascending::<String>(v.members.dom());
        let any = any_member_of(v);
        let base = leaf(v.members_complete);
        lemma_ascending::<String>(v.members.dom());
        lemma_join_from_covers(v.members, keys, 0, base, 0);
        if v.members.contains_key(key) {
            assert(keys.to_set().contains(key));
            let j = choose|j: int| 0 <= j < keys.len() && keys[j] == key;
            lemma_join_from_covers(v.members, keys, 0, base, j);
        }
        if v.members.contains_key(dynamic_member()) {
            assert(keys.to_set().contains(dynamic_member()));
            let j = choose|j: int| 0 <= j < keys.len() && keys[j] == dynamic_member();
            lemma_join_from_covers(v.members, keys, 0, base, j);
            join_is_least(any, listed(v, key), v.members[dynamic_member()]);
        }
    }
}

/// What was written at a path of members is found there, and the other members of the value
/// stay what they were.
pub proof fn path_write_is_found(v: Callable, path: Seq<Seq<char>>, written: Callable)
    ensures
        at_path(with_path(v, path, written), path) == written,
        path.len() > 0 && !v.bottom ==> forall|k: Seq<char>|
            k != path[0] ==> #[trigger] listed(with_path(v, path, written), k) == listed(v, k),
    decreases path.len(),
{
    if path.len() > 1 {
        let base = if v.bottom {
            unknown()
        } else {
            v
        };
        let held = if base.members.contains_key(path[0]) {
            base.members[path[0]]
        } else {
            unknown()
        };
        path_write_is_found(held, path.drop_first(), written);
    } else if path.len() == 1 {
        assert(path.drop_first().len() == 0);
        assert(at_path(written, path.drop_first()) == written);
    }
}

/// What was pushed may come back from the position behind each possible end.
pub proof fn push_is_seen(v: Callable, written: Callable, n: usize)
    requires
        !v.bottom,
        v.array_lengths matches Some(lengths) && lengths.contains(n),
    ensures
        covers(member_of(with_pushed(v, written), int_key(n as nat)), written),
{
    let lengths = v.array_lengths->Some_0;
    let key = int_key(n as nat);
    let x = with_pushed(v, written);
    let filled = with_ends(v, lengths, written);
    assert(is_end(lengths, key));
    let held = if v.members.contains_key(key) {
        v.members[key]
    } else {
        not_reached()
    };
    join_covers_both(held, written);
    assert(filled.members[key] == join(held, written));
    if lengths.map(|n: usize| longer(n)).len() > MAX_TRACKED_ARRAY_LENGTHS {
        dynamic_write_is_seen(Callable { array_lengths: None, ..filled }, written, key);
    } else {
        assert(listed(x, key) == join(held, written));
        if x.members.contains_key(dynamic_member()) {
            join_covers_both(listed(x, key), x.members[dynamic_member()]);
            covers_is_transitive(member_of(x, key), listed(x, key), written);
        }
    }
}

/// A value that was limited to a depth has no members below it.
pub proof fn limit_is_kept(v: Callable, remaining: nat)
    requires
        is_normal(v),
    ensures
        nests_within(limited(v, remaining), remaining),
    decreases remaining,
{
    let x = limited(v, remaining);
    if !v.bottom && remaining > 0 {
        assert forall|k: Seq<char>| #[trigger] x.members.contains_key(k) implies nests_within(
            x.members[k],
            (remaining - 1) as nat,
        ) by {
            assert(v.members.contains_key(k));
            limit_is_kept(v.members[k], (remaining - 1) as nat);
        }
    }
}

} // verus!
