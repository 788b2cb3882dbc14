use tolk_inspect::callable::{merge_optional_callable_value, merged_callable_value, CallableValue};

fn names(value: &CallableValue) -> Vec<String> {
    let mut out: Vec<String> = Vec::new();
    for i in 0..value.targets.len() {
        out.push(value.targets.at(i).clone());
    }
    out
}

fn target(name: &str) -> CallableValue {
    CallableValue::target(name.into())
}

#[test]
fn callable_lattice_distinguishes_bottom_unknown_and_nested_shapes() {
    let target = CallableValue::target("callable".into());
    assert_eq!(
        merged_callable_value(&CallableValue::bottom(), &target),
        target
    );

    let partial = merged_callable_value(&CallableValue::default(), &target);
    assert_eq!(names(&partial), vec!["callable".to_string()]);
    assert!(!partial.complete);

    let mut shape = CallableValue::bottom();
    shape.set_member_path(&["outer".into(), "handler".into()], target.clone());
    assert_eq!(shape.member("outer").member("handler"), target);
    assert!(!shape.member("missing").complete);

    shape.limit_member_depth(1);
    let truncated = shape.member("outer").member("handler");
    assert!(names(&truncated).is_empty());
    assert!(!truncated.complete);

    let mut exact = CallableValue::non_callable();
    exact.members_complete = true;
    assert!(exact.member("missing").complete);
}

#[test]
fn joining_is_idempotent_and_commutes() {
    let a = target("a");
    let b = target("b");
    assert_eq!(merged_callable_value(&a, &a), a);
    let ab = merged_callable_value(&a, &b);
    assert_eq!(ab, merged_callable_value(&b, &a));
    assert_eq!(names(&ab), vec!["a".to_string(), "b".to_string()]);
    assert!(ab.complete);
    let abc = merged_callable_value(&ab, &target("c"));
    let other = merged_callable_value(&a, &merged_callable_value(&b, &target("c")));
    assert_eq!(abc, other);
}

#[test]
fn an_unlisted_member_is_unknown_unless_the_list_is_complete() {
    let mut left = CallableValue::non_callable();
    left.members_complete = true;
    left.set_member("handler".into(), target("a"));
    let right = CallableValue::non_callable();
    let joined = merged_callable_value(&left, &right);
    assert_eq!(names(&joined.member("handler")), vec!["a".to_string()]);
    assert!(!joined.member("handler").complete);

    let mut complete = CallableValue::non_callable();
    complete.members_complete = true;
    let joined = merged_callable_value(&left, &complete);
    assert!(joined.member("handler").complete);
    assert!(joined.members_complete);
}

#[test]
fn a_dynamic_write_is_seen_by_every_lookup() {
    let mut value = CallableValue::non_callable();
    value.members_complete = true;
    value.set_member("int:0".into(), target("a"));
    value.set_dynamic_member(target("b"));
    assert_eq!(
        names(&value.member("int:0")),
        vec!["a".to_string(), "b".to_string()]
    );
    assert_eq!(names(&value.member("int:7")), vec!["b".to_string()]);
    assert_eq!(
        names(&value.any_member()),
        vec!["a".to_string(), "b".to_string()]
    );
}

#[test]
fn pushing_and_popping_follow_the_length() {
    let mut array = CallableValue::non_callable();
    array.members_complete = true;
    let mut lengths = tolk_inspect::tables::KeySet::new();
    lengths.insert(0usize);
    array.array_lengths = Some(lengths);
    array.push_array_member(target("first"));
    array.push_array_member(target("second"));
    assert_eq!(names(&array.member("int:0")), vec!["first".to_string()]);
    assert_eq!(names(&array.member("int:1")), vec!["second".to_string()]);
    array.pop_array_member();
    array.push_array_member(target("third"));
    assert_eq!(
        names(&array.member("int:1")),
        vec!["second".to_string(), "third".to_string()]
    );
    assert!(names(&array.member("int:2")).is_empty());
}

#[test]
fn too_many_lengths_widen_to_the_dynamic_member() {
    let mut lengths = tolk_inspect::tables::KeySet::new();
    for length in 0..17usize {
        lengths.insert(length);
    }
    let mut array = CallableValue::non_callable();
    array.members_complete = true;
    array.array_lengths = Some(lengths);
    array.push_array_member(target("pushed"));
    assert!(array.array_lengths.is_none());
    assert_eq!(names(&array.member("int:40")), vec!["pushed".to_string()]);
}

#[test]
fn an_optional_value_starts_with_the_first_that_arrives() {
    let mut slot = None;
    merge_optional_callable_value(&mut slot, &target("a"));
    merge_optional_callable_value(&mut slot, &CallableValue::default());
    let value = slot.unwrap();
    assert_eq!(names(&value), vec!["a".to_string()]);
    assert!(!value.complete);
}

#[test]
fn a_bottom_value_has_bottom_members() {
    assert_eq!(CallableValue::bottom().member("any"), CallableValue::bottom());
    assert_eq!(CallableValue::bottom().any_member(), CallableValue::bottom());
}

#[test]
fn a_store_that_may_not_happen_keeps_what_may_have_been_there() {
    let mut open = CallableValue::default();
    open.choose_member("k".into(), &target("allow"));
    let member = open.member("k");
    assert_eq!(names(&member), vec!["allow".to_string()]);
    assert!(!member.complete);

    let mut closed = CallableValue::non_callable();
    closed.members_complete = true;
    closed.choose_member("k".into(), &target("allow"));
    assert!(closed.member("k").complete);
    closed.choose_member("k".into(), &target("reject"));
    assert_eq!(
        names(&closed.member("k")),
        vec!["allow".to_string(), "reject".to_string()]
    );
}
