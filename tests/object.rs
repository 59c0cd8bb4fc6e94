use jmap_tools::{Key, Null, ObjectAsVec, Text, Value};

type Obj = ObjectAsVec<'static, Null, Null>;
type Val = Value<'static, Null, Null>;

fn key(s: &'static str) -> Key<'static, Null> {
    Key::Borrowed(s)
}

fn num(n: u64) -> Val {
    Value::Number(n.into())
}

fn sample() -> Obj {
    ObjectAsVec::new()
        .with_key_value(key("a"), num(1))
        .with_key_value(key("B"), Value::Bool(true))
        .with_key_value(key("c"), Value::Bool(false))
}

#[test]
fn insert_replaces_first_match_or_appends() {
    let mut obj = sample();
    assert_eq!(obj.insert(Key::Owned("a".to_string()), num(5)), Some(num(1)));
    assert_eq!(obj.len(), 3);
    assert_eq!(obj.get(&key("a")), Some(&num(5)));
    assert_eq!(obj.insert(key("d"), num(7)), None);
    assert_eq!(obj.len(), 4);
    assert_eq!(obj.as_vec()[3].0, key("d"));
}

#[test]
fn lookups_compare_key_text() {
    let obj = sample();
    assert!(obj.contains_key(&Key::Owned("c".to_string())));
    assert!(!obj.contains_key(&key("z")));
    assert!(obj.contains_key_value(&key("a"), &num(1)));
    assert!(!obj.contains_key_value(&key("a"), &num(2)));
    assert!(obj.contains_any_key(&[key("x"), key("c")]));
    assert!(!obj.contains_any_key(&[key("x")]));
    assert_eq!(obj.get_key_value(&key("B")).map(|(k, _)| k.to_string()), Some("B".to_string()));
    assert!(obj.get(&key("b")).is_none());
}

#[test]
fn ignore_case_lookup() {
    let obj = sample();
    assert_eq!(obj.get_ignore_case("b"), Some(&Value::Bool(true)));
    assert_eq!(obj.get_ignore_case("A"), Some(&num(1)));
    assert!(obj.get_ignore_case("q").is_none());
}

#[test]
fn remove_keeps_order_of_the_rest() {
    let mut obj = sample();
    assert_eq!(obj.remove(&key("a")), Some(num(1)));
    assert_eq!(obj.len(), 2);
    assert_eq!(obj.as_vec()[0].0, key("B"));
    assert_eq!(obj.as_vec()[1].0, key("c"));
    assert_eq!(obj.remove(&key("a")), None);
}

#[test]
fn get_mut_and_insert_or_get_mut() {
    let mut obj = sample();
    if let Some(v) = obj.get_mut(&key("a")) {
        *v = num(9);
    }
    assert_eq!(obj.get(&key("a")), Some(&num(9)));
    *obj.insert_or_get_mut(key("a"), num(0)) = num(10);
    assert_eq!(obj.get(&key("a")), Some(&num(10)));
    *obj.insert_or_get_mut(key("new"), num(0)) = num(11);
    assert_eq!(obj.get(&key("new")), Some(&num(11)));
    *obj.insert_unchecked_and_get_mut(key("a"), num(0)) = num(12);
    assert_eq!(obj.len(), 5);
    assert_eq!(obj.get(&key("a")), Some(&num(10)));
}

#[test]
fn insert_named_picks_fresh_names() {
    let mut obj: Obj = ObjectAsVec::new();
    assert_eq!(obj.insert_named(None, num(1)), "k1");
    assert_eq!(obj.insert_named(Some("x".to_string()), num(2)), "x");
    assert_eq!(obj.insert_named(Some("x".to_string()), num(3)), "x-3");
    assert_eq!(obj.insert_named(None, num(4)), "k4");
    assert_eq!(obj.len(), 4);
}

#[test]
fn boolean_sets() {
    let set: Val = Value::new_boolean_set(vec![(key("on"), true), (key("off"), false)]);
    assert_eq!(set.get("on"), &Value::Bool(true));
    assert_eq!(set.get("off"), &Value::Bool(false));
    let expanded = set.clone().into_expanded_boolean_set();
    assert_eq!(expanded.len(), 2);
    assert_eq!(expanded[1].1, false);
    let keys = set.into_object().unwrap().into_expanded_boolean_set();
    assert_eq!(keys, vec![key("on")]);
}

#[test]
fn keys_values_and_extend() {
    let mut obj = sample();
    obj.extend(vec![(key("e"), num(3))]);
    let keys: Vec<String> = obj.keys().iter().map(|k| k.to_string()).collect();
    assert_eq!(keys, vec!["a", "B", "c", "e"]);
    assert_eq!(obj.values()[3], &num(3));
    assert_eq!(obj.iter().count(), 4);
    assert!(!obj.is_empty());
    let entries = Value::Object(obj).into_expanded_object();
    assert_eq!(entries.len(), 4);
}

#[test]
fn value_accessors() {
    let s: Val = Value::Str(Text::Owned("hi".to_string()));
    assert!(s.is_string());
    assert_eq!(s.as_str().unwrap().as_str(), "hi");
    assert_eq!(s.clone().into_string(), Some("hi".to_string()));
    assert!(num(3).as_str().is_none());
    let arr: Val = Value::Array(vec![num(1), Value::Null]);
    assert!(arr.is_array());
    assert_eq!(arr.as_array().unwrap().len(), 2);
    assert_eq!(arr.iter_array().unwrap().count(), 2);
    assert!(arr.clone().into_array().is_some());
    assert!(arr.as_object().is_none());
    assert_eq!(Value::<Null, Null>::from(true).as_bool(), Some(true));
    assert_eq!(Val::from(-4i64).as_i64(), Some(-4));
    assert_eq!(Val::from(u64::MAX).as_i64(), None);
    assert_eq!(Val::from(u64::MAX).as_u64(), Some(u64::MAX));
    assert!(Val::from("text").is_string());
    assert!(Value::<Null, Null>::Null.into_element().is_none());
}

#[test]
fn key_conversions() {
    let k: Key<'static, Null> = "abc".into();
    assert!(matches!(k, Key::Borrowed("abc")));
    assert_eq!(k.as_string_key(), Some("abc"));
    assert!(k.as_property().is_none());
    let owned = k.to_owned();
    assert!(matches!(owned, Key::Owned(ref s) if s == "abc"));
    assert_eq!(owned.clone().into_string(), "abc");
    assert!(owned.clone().try_into_property().is_none());
    assert_eq!(Key::<Null>::Borrowed("x").into_owned(), Key::Owned("x".to_string()));
    assert!(Key::<Null>::Borrowed("x") == Key::Owned("x".to_string()));
}

#[test]
fn key_text_comparison() {
    let k: Key<'static, Null> = Key::Owned("abc".to_string());
    assert!(k.has_text("abc"));
    assert!(!k.has_text("abd"));
    assert!(k.same_text(&Key::Borrowed("abc")));
}
