//! The callable values that an expression may hold: a lattice of known targets, of members
//! and of what is not known about them.
use crate::lattice::{
    any_member_of, int_key, is_end, join, join_associates, join_from, join_is_idempotent, join_leaf,
    leaf, limited, longer, member_of, not_reached, only, plain, shorter, unknown, with_choice,
    with_dynamic, with_ends, with_joined, with_member, with_path, with_popped, with_pushed,
    Callable, MAX_TRACKED_ARRAY_LENGTHS,
};
use crate::tables::{
    ascending, is_ascending, lemma_paired_add, lemma_paired_at, lemma_paired_drop, lemma_paired_set,
    lemma_taken, paired, KeySet, Value,
};
use crate::text::{opt_view, push_decimal, views};
use vstd::prelude::*;
use vstd::std_specs::cmp::PartialEqSpecImpl;
use vstd::string::*;

verus! {

broadcast use crate::text::group_views;

/// The symbols that a value may be called as, and the same of its members.
///
/// `complete` says that `targets` holds every target; `members_complete` that a member that
/// is not listed holds no callable. A `bottom` value has not been reached by any flow.
#[derive(Debug)]
pub struct CallableValue {
    pub targets: KeySet<String>,
    pub complete: bool,
    pub members: Members,
    pub members_complete: bool,
    pub array_lengths: Option<KeySet<usize>>,
    pub bottom: bool,
}

/// The members of a callable value by name.
#[derive(Debug)]
pub struct Members {
    keys: KeySet<String>,
    values: Vec<CallableValue>,
}

pub open spec fn lengths_view(lengths: Option<KeySet<usize>>) -> Option<Set<usize>> {
    match lengths {
        Some(set) => Some(set@),
        None => None,
    }
}

impl View for CallableValue {
    type V = Callable;

    open spec fn view(&self) -> Callable
        decreases self,
    {
        Callable {
            targets: self.targets@,
            complete: self.complete,
            members: self.members@,
            members_complete: self.members_complete,
            array_lengths: lengths_view(self.array_lengths),
            bottom: self.bottom,
        }
    }
}

impl View for Members {
    type V = Map<Seq<char>, Callable>;

    closed spec fn view(&self) -> Map<Seq<char>, Callable>
        decreases self,
    {
        paired(self.keys.sequence(), points(self.values@))
    }
}

spec fn points(values: Seq<CallableValue>) -> Seq<Callable>
    decreases values,
{
    Seq::new(
        values.len(),
        |i: int|
            if 0 <= i < values.len() {
                values[i]@
            } else {
                arbitrary()
            },
    )
}

impl Members {
    #[verifier::type_invariant]
    spec fn matched(self) -> bool {
        self.keys.sequence().len() == self.values@.len()
    }

    /// The names in ascending order.
    pub closed spec fn sequence(self) -> Seq<Seq<char>> {
        self.keys.sequence()
    }

    pub fn new() -> (r: Self)
        ensures
            r@ == Map::<Seq<char>, Callable>::empty(),
    {
        let keys = KeySet::new();
        let values: Vec<CallableValue> = Vec::new();
        let _n: usize = keys.len();
        assert(keys.sequence() =~= Seq::empty());
        let r = Members { keys, values };
        assert(r@ =~= Map::<Seq<char>, Callable>::empty());
        r
    }

    pub fn len(&self) -> (n: usize)
        ensures
            n == self.sequence().len(),
            self@.dom().finite(),
            self@.dom() == self.sequence().to_set(),
            self.sequence() == ascending::<String>(self@.dom()),
            is_ascending::<String>(self.sequence()),
            self.sequence().no_duplicates(),
    {
        let n: usize = self.keys.len();
        proof {
            assert(self@.dom() =~= self.sequence().to_set());
            assert(self@.dom() =~= self.keys@);
        }
        n
    }

    pub fn key_at(&self, i: usize) -> (r: &String)
        requires
            i < self.sequence().len(),
        ensures
            r@ == self.sequence()[i as int],
    {
        self.keys.at(i)
    }

    pub fn value_at(&self, i: usize) -> (r: &CallableValue)
        requires
            i < self.sequence().len(),
        ensures
            self@.contains_key(self.sequence()[i as int]),
            r@ == self@[self.sequence()[i as int]],
            decreases_to!(self => r),
    {
        let _n: usize = self.keys.len();
        proof {
            use_type_invariant(self);
            lemma_paired_at(self.keys.sequence(), points(self.values@), i as int);
        }
        assert(decreases_to!(self => self.values));
        assert(decreases_to!(self.values => self.values@));
        assert(decreases_to!(self.values@ => self.values@[i as int]));
        &self.values[i]
    }

    pub fn get(&self, key: &String) -> (r: Option<&CallableValue>)
        ensures
            r is Some <==> self@.contains_key(key@),
            r matches Some(v) ==> v@ == self@[key@] && decreases_to!(self => v),
    {
        let _n: usize = self.len();
        let _m: usize = self.keys.len();
        match self.keys.find(key) {
            Some(i) => {
                assert(self.sequence().to_set().contains(key@));
                Some(self.value_at(i))
            },
            None => {
                assert(!self.keys.sequence().to_set().contains(key@));
                None
            },
        }
    }

    pub fn contains_key(&self, key: &String) -> (r: bool)
        ensures
            r == self@.contains_key(key@),
    {
        self.get(key).is_some()
    }

    pub fn insert(&mut self, key: String, value: CallableValue)
        ensures
            final(self)@ == old(self)@.insert(key@, value@),
    {
        proof {
            use_type_invariant(&*self);
        }
        let _n: usize = self.keys.len();
        let ghost names = self.keys.sequence();
        let ghost start = points(self.values@);
        let found = self.keys.find(&key);
        let mut taken = Members::new();
        std::mem::swap(&mut taken, self);
        let Members { keys: mut keys, values: mut values } = taken;
        let ghost held = value@;
        match found {
            Some(i) => {
                values.set(i, value);
                proof {
                    assert(points(values@) =~= start.update(i as int, held));
                    lemma_paired_set(names, start, i as int, held);
                }
            },
            None => {
                assert(!names.contains(key@)) by {
                    if names.contains(key@) {
                        assert(names.to_set().contains(key@));
                    }
                }
                let ghost k = key@;
                let at: usize = keys.add(key);
                values.insert(at, value);
                proof {
                    assert(points(values@) =~= start.insert(at as int, held));
                    lemma_paired_add(names, start, at as int, k, held);
                }
            },
        }
        *self = Members { keys, values };
    }

    pub fn remove(&mut self, key: &String)
        ensures
            final(self)@ == old(self)@.remove(key@),
    {
        proof {
            use_type_invariant(&*self);
        }
        let _n: usize = self.len();
        let _m: usize = self.keys.len();
        let ghost names = self.keys.sequence();
        let ghost start = points(self.values@);
        match self.keys.find(key) {
            Some(i) => {
                let mut taken = Members::new();
                std::mem::swap(&mut taken, self);
                let Members { keys: mut keys, values: mut values } = taken;
                keys.drop_at(i);
                let _gone = values.remove(i);
                proof {
                    assert(points(values@) =~= start.remove(i as int));
                    lemma_paired_drop(names, start, i as int);
                }
                *self = Members { keys, values };
            },
            None => {
                assert(!self@.contains_key(key@)) by {
                    assert(!names.to_set().contains(key@));
                }
                assert(self@.remove(key@) =~= self@);
            },
        }
    }
}

impl Clone for Members {
    fn clone(&self) -> (r: Self)
        ensures
            r@ == self@,
        decreases self,
    {
        let n: usize = self.len();
        proof {
            use_type_invariant(self);
        }
        let mut values: Vec<CallableValue> = Vec::new();
        let mut i: usize = 0;
        while i < n
            invariant
                i <= n,
                n == self.values@.len(),
                values@.len() == i,
                forall|j: int| 0 <= j < i ==> (#[trigger] values@[j])@ == self.values@[j]@,
            decreases n - i,
        {
            assert(decreases_to!(self => self.values));
            assert(decreases_to!(self.values => self.values@));
            assert(decreases_to!(self.values@ => self.values@[i as int]));
            let copied = self.values[i].clone();
            values.push(copied);
            i += 1;
        }
        assert(points(values@) =~= points(self.values@));
        Members { keys: self.keys.copy(), values }
    }
}

impl Clone for CallableValue {
    fn clone(&self) -> (r: Self)
        ensures
            r@ == self@,
        decreases self,
    {
        let array_lengths = match &self.array_lengths {
            Some(lengths) => Some(lengths.copy()),
            None => None,
        };
        CallableValue {
            targets: self.targets.copy(),
            complete: self.complete,
            members: self.members.clone(),
            members_complete: self.members_complete,
            array_lengths,
            bottom: self.bottom,
        }
    }
}

impl CallableValue {
    /// Whether two values are the same point of the lattice.
    pub fn same(&self, other: &Self) -> (r: bool)
        ensures
            r == (self@ == other@),
        decreases self, 1int,
    {
        if self.complete != other.complete || self.members_complete != other.members_complete
            || self.bottom != other.bottom {
            return false;
        }
        let lengths = match (&self.array_lengths, &other.array_lengths) {
            (Some(left), Some(right)) => left.same(right),
            (None, None) => true,
            _ => false,
        };
        if !lengths {
            return false;
        }
        if !self.targets.same(&other.targets) {
            return false;
        }
        self.members.same(&other.members)
    }
}

impl Members {
    pub fn same(&self, other: &Self) -> (r: bool)
        ensures
            r == (self@ == other@),
        decreases self, 0int,
    {
        let n: usize = self.len();
        let _m: usize = other.len();
        if !self.keys.same(&other.keys) {
            assert(self@.dom() != other@.dom());
            return false;
        }
        proof {
            use_type_invariant(self);
            use_type_invariant(other);
        }
        let mut i: usize = 0;
        while i < n
            invariant
                i <= n,
                n == self.sequence().len(),
                self.sequence() == other.sequence(),
                self@.dom() == self.sequence().to_set(),
                other@.dom() == self.sequence().to_set(),
                forall|j: int|
                    0 <= j < i ==> self@[#[trigger] self.sequence()[j]]
                        == other@[self.sequence()[j]],
            decreases n - i,
        {
            let left = self.value_at(i);
            let right = other.value_at(i);
            if !left.same(right) {
                return false;
            }
            i += 1;
        }
        assert forall|k: Seq<char>| self@.contains_key(k) implies self@[k] == other@[k] by {
            assert(self.sequence().to_set().contains(k));
            let j = choose|j: int| 0 <= j < n && self.sequence()[j] == k;
            assert(self@[self.sequence()[j]] == other@[self.sequence()[j]]);
        }
        assert(self@ =~= other@);
        true
    }
}

/// The member that stands for every key of a collection that is not known.
pub const DYNAMIC_MEMBER: &'static str = "\0dynamic";

/// The member of a map lookup that holds the value found.
pub const MAP_VALUE_MEMBER: &'static str = "\0map-value";

impl Default for CallableValue {
    /// A value of which nothing is known.
    fn default() -> (r: Self)
        ensures
            r@ == unknown(),
    {
        CallableValue::leaf(false)
    }
}

impl CallableValue {
    fn leaf(complete: bool) -> (r: Self)
        ensures
            r@ == leaf(complete),
    {
        let r = CallableValue {
            targets: KeySet::new(),
            complete,
            members: Members::new(),
            members_complete: false,
            array_lengths: None,
            bottom: false,
        };
        assert(r@ =~= leaf(complete));
        r
    }

    /// A value that is one known callable.
    pub fn target(target: String) -> (r: Self)
        ensures
            r@ == only(target@),
    {
        let mut targets = KeySet::new();
        targets.insert(target);
        let r = CallableValue { targets, ..CallableValue::leaf(true) };
        assert(r@ =~= only(target@));
        r
    }

    /// A value that is not callable.
    pub fn non_callable() -> (r: Self)
        ensures
            r@ == plain(),
    {
        CallableValue::leaf(true)
    }

    /// A value that no flow has reached.
    pub fn bottom() -> (r: Self)
        ensures
            r@ == not_reached(),
    {
        let r = CallableValue {
            members_complete: true,
            bottom: true,
            ..CallableValue::leaf(true)
        };
        assert(r@ =~= not_reached());
        r
    }

    /// The value joined with a leaf.
    fn with_leaf(&self, complete: bool) -> (r: Self)
        ensures
            r@ == join_leaf(self@, complete),
        decreases self,
    {
        if self.bottom {
            return CallableValue::leaf(complete);
        }
        let n: usize = self.members.len();
        let mut members = Members::new();
        let mut i: usize = 0;
        let ghost goal = join_leaf(self@, complete).members;
        while i < n
            invariant
                i <= n,
                n == self.members.sequence().len(),
                self.members.sequence().no_duplicates(),
                self.members@.dom() == self.members.sequence().to_set(),
                goal == join_leaf(self@, complete).members,
                !self.bottom,
                filled(members@, goal, self.members.sequence(), i as int),
            decreases n - i,
        {
            let key = self.members.key_at(i);
            let value = self.members.value_at(i);
            let joined = value.with_leaf(false);
            let ghost before = members@;
            members.insert(key.clone(), joined);
            proof {
                lemma_filled(before, goal, self.members.sequence(), i as int, joined@);
            }
            i += 1;
        }
        proof {
            lemma_filled_all(members@, goal, self.members.sequence());
        }
        CallableValue {
            targets: self.targets.copy(),
            complete: self.complete && complete,
            members,
            members_complete: false,
            array_lengths: None,
            bottom: false,
        }
    }

    /// What a lookup of a known key may give.
    pub fn member(&self, key: &str) -> (r: Self)
        ensures
            r@ == member_of(self@, key@),
    {
        if self.bottom {
            return CallableValue::bottom();
        }
        let name = key.to_owned();
        let exact = match self.members.get(&name) {
            Some(value) => value.clone(),
            None => CallableValue::leaf(self.members_complete),
        };
        match self.members.get(&DYNAMIC_MEMBER.to_owned()) {
            Some(dynamic) => merged_callable_value(&exact, dynamic),
            None => exact,
        }
    }

    /// What a lookup of an unknown key may give.
    pub fn any_member(&self) -> (r: Self)
        ensures
            r@ == any_member_of(self@),
    {
        if self.bottom {
            return CallableValue::bottom();
        }
        let n: usize = self.members.len();
        let mut result = CallableValue::leaf(self.members_complete);
        let mut i: usize = 0;
        while i < n
            invariant
                i <= n,
                n == self.members.sequence().len(),
                self.members.sequence() == ascending::<String>(self.members@.dom()),
                !self.bottom,
                any_member_of(self@) == join_from(
                    self.members@,
                    self.members.sequence(),
                    i as int,
                    result@,
                ),
            decreases n - i,
        {
            let value = self.members.value_at(i);
            result = merged_callable_value(&result, value);
            i += 1;
        }
        result
    }

    /// Joins a value into one member.
    pub fn join_member(&mut self, key: String, value: &Self)
        ensures
            final(self)@ == with_joined(old(self)@, key@, value@),
    {
        let joined = match self.members.get(&key) {
            Some(current) => merged_callable_value(current, value),
            None => value.clone(),
        };
        self.members.insert(key, joined);
        assert(self@ =~= with_joined(old(self)@, key@, value@));
    }

    /// Stores a value in one member, or leaves it.
    pub fn choose_member(&mut self, key: String, value: &Self)
        ensures
            final(self)@ == with_choice(old(self)@, key@, value@),
    {
        if self.members_complete || self.members.contains_key(&key) {
            self.join_member(key, value);
        } else {
            let joined = merged_callable_value(&Self::default(), value);
            self.set_member(key, joined);
        }
    }

    /// Stores a value under an unknown key.
    pub fn set_dynamic_member(&mut self, value: Self)
        ensures
            final(self)@ == with_dynamic(old(self)@, value@),
    {
        self.join_member(DYNAMIC_MEMBER.to_owned(), &value);
    }

    /// Replaces one member.
    pub fn set_member(&mut self, key: String, value: Self)
        ensures
            final(self)@ == with_member(old(self)@, key@, value@),
    {
        self.members.insert(key, value);
        assert(self@ =~= with_member(old(self)@, key@, value@));
    }

    /// Pushes a value to the end of an array.
    pub fn push_array_member(&mut self, value: Self)
        ensures
            final(self)@ == with_pushed(old(self)@, value@),
    {
        let lengths = match &self.array_lengths {
            Some(lengths) => lengths.copy(),
            None => {
                self.set_dynamic_member(value);
                return;
            },
        };
        let ghost start = self@;
        let ghost all = lengths.sequence();
        let n: usize = lengths.len();
        let mut next: KeySet<usize> = KeySet::new();
        let mut i: usize = 0;
        assert(self@ =~= with_ends(start, all.take(0).to_set(), value@)) by {
            assert(all.take(0).to_set() =~= Set::<usize>::empty());
            assert(self@.members =~= with_ends(start, Set::empty(), value@).members);
        }
        assert(next@ =~= all.take(0).to_set().map(|n: usize| longer(n)));
        while i < n
            invariant
                i <= n,
                all == lengths.sequence(),
                n == all.len(),
                self@ == with_ends(start, all.take(i as int).to_set(), value@),
                next@ == all.take(i as int).to_set().map(|n: usize| longer(n)),
            decreases n - i,
        {
            let length: usize = *lengths.at(i);
            let grown: usize = if length == usize::MAX {
                length
            } else {
                length + 1
            };
            proof {
                lemma_taken(all, i as int);
                lemma_ends(start, all.take(i as int).to_set(), length, value@);
                lemma_mapped(all.take(i as int).to_set(), length, |n: usize| longer(n));
            }
            self.join_member(int_text(length), &value);
            next.insert(grown);
            i += 1;
        }
        assert(all.take(n as int) =~= all);
        assert(all.to_set() =~= lengths@);
        if next.len() > MAX_TRACKED_ARRAY_LENGTHS {
            self.array_lengths = None;
            self.set_dynamic_member(value);
        } else {
            self.array_lengths = Some(next);
        }
    }

    /// Takes away the last element of an array.
    pub fn pop_array_member(&mut self)
        ensures
            final(self)@ == with_popped(old(self)@),
    {
        let ghost start = self@;
        let shrunk = match &self.array_lengths {
            None => None,
            Some(lengths) => {
                let ghost all = lengths.sequence();
                let n: usize = lengths.len();
                let mut next: KeySet<usize> = KeySet::new();
                let mut i: usize = 0;
                assert(next@ =~= all.take(0).to_set().map(|n: usize| shorter(n)));
                while i < n
                    invariant
                        i <= n,
                        all == lengths.sequence(),
                        n == all.len(),
                        next@ == all.take(i as int).to_set().map(|n: usize| shorter(n)),
                    decreases n - i,
                {
                    let length: usize = *lengths.at(i);
                    proof {
                        lemma_taken(all, i as int);
                        lemma_mapped(all.take(i as int).to_set(), length, |n: usize| shorter(n));
                    }
                    next.insert(
                        if length == 0 {
                            0
                        } else {
                            length - 1
                        },
                    );
                    i += 1;
                }
                assert(all.take(n as int) =~= all);
                assert(all.to_set() =~= lengths@);
                Some(next)
            },
        };
        self.array_lengths = shrunk;
        assert(self@ =~= with_popped(start));
    }

    /// Replaces what stands at the end of a path of members.
    pub fn set_member_path(&mut self, path: &[String], value: Self)
        ensures
            final(self)@ == with_path(old(self)@, views(path@), value@),
    {
        self.set_path_from(path, 0, value);
        assert(path@.skip(0) =~= path@);
    }

    fn set_path_from(&mut self, path: &[String], from: usize, value: Self)
        requires
            from <= path@.len(),
        ensures
            final(self)@ == with_path(old(self)@, views(path@.skip(from as int)), value@),
        decreases path@.len() - from,
    {
        let ghost names = views(path@.skip(from as int));
        if self.bottom {
            *self = CallableValue::default();
        }
        if from == path.len() {
            *self = value;
            return;
        }
        let head = path[from].clone();
        if from + 1 == path.len() {
            self.set_member(head, value);
        } else {
            let mut inner = match self.members.get(&head) {
                Some(held) => held.clone(),
                None => CallableValue::default(),
            };
            inner.set_path_from(path, from + 1, value);
            assert(names.drop_first() =~= views(path@.skip(from + 1)));
            self.set_member(head, inner);
        }
    }

    /// Drops the members below a depth.
    pub fn limit_member_depth(&mut self, remaining: usize)
        ensures
            final(self)@ == limited(old(self)@, remaining as nat),
        decreases remaining,
    {
        let ghost start = self@;
        let n: usize = self.members.len();
        if n == 0 {
            assert(self@.members =~= Map::<Seq<char>, Callable>::empty());
        } else {
            assert(self.members.sequence().to_set().contains(self.members.sequence()[0]));
            assert(self@.members.contains_key(self.members.sequence()[0]));
        }
        if self.bottom || n == 0 {
            return;
        }
        if remaining == 0 {
            self.members = Members::new();
            self.members_complete = false;
            self.array_lengths = None;
            assert(self@ =~= limited(start, 0));
            return;
        }
        let ghost goal = limited(start, remaining as nat).members;
        let mut members = Members::new();
        let mut i: usize = 0;
        while i < n
            invariant
                i <= n,
                remaining > 0,
                n == self.members.sequence().len(),
                self.members.sequence().no_duplicates(),
                self.members@.dom() == self.members.sequence().to_set(),
                goal == self.members@.map_values(
                    |m: Callable| limited(m, (remaining - 1) as nat),
                ),
                filled(members@, goal, self.members.sequence(), i as int),
            decreases n - i,
        {
            let key = self.members.key_at(i);
            let mut value = self.members.value_at(i).clone();
            value.limit_member_depth(remaining - 1);
            let ghost before = members@;
            members.insert(key.clone(), value);
            proof {
                lemma_filled(before, goal, self.members.sequence(), i as int, value@);
            }
            i += 1;
        }
        proof {
            lemma_filled_all(members@, goal, self.members.sequence());
        }
        self.members = members;
        assert(self@ =~= limited(start, remaining as nat));
    }
}

/// The key of an array position or of an integer map key.
pub fn int_text(n: usize) -> (r: String)
    ensures
        r@ == int_key(n as nat),
{
    let mut out = "int:".to_owned();
    push_decimal(&mut out, n as u64);
    out
}

/// `part` holds what `goal` holds under the first `i` keys.
spec fn filled(
    part: Map<Seq<char>, Callable>,
    goal: Map<Seq<char>, Callable>,
    keys: Seq<Seq<char>>,
    i: int,
) -> bool {
    &&& forall|k: Seq<char>| #[trigger] part.contains_key(k) <==> keys.take(i).contains(k)
    &&& forall|k: Seq<char>| part.contains_key(k) ==> #[trigger] part[k] == goal[k]
}

proof fn lemma_filled(
    part: Map<Seq<char>, Callable>,
    goal: Map<Seq<char>, Callable>,
    keys: Seq<Seq<char>>,
    i: int,
    value: Callable,
)
    requires
        0 <= i < keys.len(),
        filled(part, goal, keys, i),
        goal[keys[i]] == value,
    ensures
        filled(part.insert(keys[i], value), goal, keys, i + 1),
{
    lemma_taken(keys, i);
}

proof fn lemma_filled_all(
    part: Map<Seq<char>, Callable>,
    goal: Map<Seq<char>, Callable>,
    keys: Seq<Seq<char>>,
)
    requires
        filled(part, goal, keys, keys.len() as int),
        goal.dom() =~= keys.to_set(),
    ensures
        part == goal,
{
    assert(keys.take(keys.len() as int) =~= keys);
    assert forall|k: Seq<char>| part.contains_key(k) <==> goal.contains_key(k) by {
        assert(keys.to_set().contains(k) <==> keys.contains(k));
    }
    assert(part =~= goal);
}

proof fn lemma_mapped(set: Set<usize>, n: usize, f: spec_fn(usize) -> usize)
    ensures
        set.insert(n).map(f) == set.map(f).insert(f(n)),
{
    let a = set.insert(n).map(f);
    let b = set.map(f).insert(f(n));
    assert forall|x: usize| b.contains(x) implies a.contains(x) by {
        if x == f(n) {
            assert(set.insert(n).contains(n));
        } else {
            let m = choose|m: usize| set.contains(m) && f(m) == x;
            assert(set.insert(n).contains(m));
        }
    }
    assert(a =~= b);
}

/// Pushing behind one more end.
proof fn lemma_ends(v: Callable, set: Set<usize>, n: usize, written: Callable)
    ensures
        with_joined(with_ends(v, set, written), int_key(n as nat), written) == with_ends(
            v,
            set.insert(n),
            written,
        ),
{
    let key = int_key(n as nat);
    let x = with_joined(with_ends(v, set, written), key, written);
    let y = with_ends(v, set.insert(n), written);
    assert forall|k: Seq<char>| is_end(set.insert(n), k) <==> is_end(set, k) || k == key by {
        if k == key {
            assert(set.insert(n).contains(n));
        }
        if is_end(set, k) {
            let m = choose|m: usize| set.contains(m) && #[trigger] int_key(m as nat) == k;
            assert(set.insert(n).contains(m));
        }
    }
    if is_end(set, key) {
        let held = if v.members.contains_key(key) {
            v.members[key]
        } else {
            not_reached()
        };
        join_associates(held, written, written);
        join_is_idempotent(written);
    }
    assert(x.members =~= y.members);
}

/// What holds of a value that comes from one of two flows.
pub fn merged_callable_value(left: &CallableValue, right: &CallableValue) -> (r: CallableValue)
    ensures
        r@ == join(left@, right@),
    decreases left,
{
    if left.bottom {
        return right.clone();
    }
    if right.bottom {
        return left.clone();
    }
    let ghost goal = join(left@, right@).members;
    let ghost lkeys = left.members.sequence();
    let ghost rkeys = right.members.sequence();
    let n: usize = left.members.len();
    let m: usize = right.members.len();
    let mut members = Members::new();
    let mut i: usize = 0;
    while i < n
        invariant
            i <= n,
            n == lkeys.len(),
            lkeys == left.members.sequence(),
            left.members@.dom() == lkeys.to_set(),
            goal == join(left@, right@).members,
            !left.bottom,
            !right.bottom,
            filled(members@, goal, lkeys, i as int),
        decreases n - i,
    {
        let key = left.members.key_at(i);
        let value = left.members.value_at(i);
        let joined = match right.members.get(key) {
            Some(other) => merged_callable_value(value, other),
            None => value.with_leaf(right.members_complete),
        };
        let ghost before = members@;
        members.insert(key.clone(), joined);
        proof {
            lemma_filled(before, goal, lkeys, i as int, joined@);
        }
        i += 1;
    }
    let mut j: usize = 0;
    let ghost all = lkeys + rkeys;
    assert(all.take(n + j) =~= lkeys.take(n as int));
    while j < m
        invariant
            j <= m,
            n == lkeys.len(),
            m == rkeys.len(),
            all == lkeys + rkeys,
            lkeys == left.members.sequence(),
            rkeys == right.members.sequence(),
            left.members@.dom() == lkeys.to_set(),
            right.members@.dom() == rkeys.to_set(),
            goal == join(left@, right@).members,
            !left.bottom,
            !right.bottom,
            filled(members@, goal, all, n + j),
        decreases m - j,
    {
        let key = right.members.key_at(j);
        let value = right.members.value_at(j);
        assert(all[n + j] == key@);
        if left.members.contains_key(key) {
            proof {
                lemma_taken(all, n + j);
                assert(lkeys.to_set().contains(key@));
                let p = choose|p: int| 0 <= p < lkeys.len() && lkeys[p] == key@;
                assert(all.take(n + j)[p] == key@);
            }
        } else {
            let joined = value.with_leaf(left.members_complete);
            let ghost before = members@;
            members.insert(key.clone(), joined);
            proof {
                lemma_filled(before, goal, all, n + j, joined@);
            }
        }
        j += 1;
    }
    proof {
        assert forall|k: Seq<char>| goal.contains_key(k) <==> all.contains(k) by {
            assert(lkeys.to_set().contains(k) <==> lkeys.contains(k));
            assert(rkeys.to_set().contains(k) <==> rkeys.contains(k));
            if lkeys.contains(k) {
                let p = choose|p: int| 0 <= p < lkeys.len() && lkeys[p] == k;
                assert(all[p] == k);
            }
            if rkeys.contains(k) {
                let p = choose|p: int| 0 <= p < rkeys.len() && rkeys[p] == k;
                assert(all[n + p] == k);
            }
        }
        assert(goal.dom() =~= all.to_set());
        lemma_filled_all(members@, goal, all);
    }
    let mut targets = left.targets.copy();
    targets.extend(&right.targets);
    let array_lengths = match (&left.array_lengths, &right.array_lengths) {
        (Some(a), Some(b)) => {
            let mut both = a.copy();
            both.extend(b);
            Some(both)
        },
        _ => None,
    };
    CallableValue {
        targets,
        complete: left.complete && right.complete,
        members,
        members_complete: left.members_complete && right.members_complete,
        array_lengths,
        bottom: false,
    }
}

/// The join of an optional value with another.
pub open spec fn join_optional(current: Option<Callable>, incoming: Callable) -> Callable {
    match current {
        Some(value) => join(value, incoming),
        None => incoming,
    }
}

/// Joins a value into an optional one.
pub fn merge_optional_callable_value(current: &mut Option<CallableValue>, incoming: &CallableValue)
    ensures
        opt_view(*final(current)) == Some(join_optional(opt_view(*old(current)), incoming@)),
{
    let joined = match &*current {
        Some(value) => merged_callable_value(value, incoming),
        None => incoming.clone(),
    };
    *current = Some(joined);
}

impl Value for CallableValue {
    fn duplicate(&self) -> (r: Self) {
        self.clone()
    }

    fn same_value(&self, other: &Self) -> (r: bool) {
        self.same(other)
    }
}

impl PartialEq for CallableValue {
    fn eq(&self, other: &Self) -> (r: bool) {
        self.same(other)
    }
}

impl PartialEqSpecImpl for CallableValue {
    open spec fn obeys_eq_spec() -> bool {
        true
    }

    open spec fn eq_spec(&self, other: &Self) -> bool {
        self@ == other@
    }
}

} // verus!
