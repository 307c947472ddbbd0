use openspeleo_core::mapping::map_key;
use openspeleo_core::value::{find_key, object_insert, object_promote, Value};

fn s(t: &str) -> Value {
    Value::String(t.to_string())
}

fn entries(list: Vec<(&str, Value)>) -> Vec<(String, Value)> {
    list.into_iter().map(|(k, v)| (k.to_string(), v)).collect()
}

#[test]
fn promote_inserts_new_key_at_end() {
    let mut m = entries(vec![("a", s("1"))]);
    object_promote(&mut m, "b".to_string(), s("2"));
    assert_eq!(m, entries(vec![("a", s("1")), ("b", s("2"))]));
}

#[test]
fn promote_turns_repeated_key_into_array() {
    let mut m = entries(vec![("a", s("1")), ("b", s("2"))]);
    object_promote(&mut m, "a".to_string(), s("3"));
    assert_eq!(m, entries(vec![("a", Value::Array(vec![s("1"), s("3")])), ("b", s("2"))]));
    object_promote(&mut m, "a".to_string(), Value::Null);
    let all = Value::Array(vec![s("1"), s("3"), Value::Null]);
    assert_eq!(m, entries(vec![("a", all), ("b", s("2"))]));
}

#[test]
fn insert_replaces_in_place() {
    let mut m = entries(vec![("a", s("1")), ("b", s("2"))]);
    object_insert(&mut m, "a".to_string(), s("9"));
    assert_eq!(m, entries(vec![("a", s("9")), ("b", s("2"))]));
    object_insert(&mut m, "c".to_string(), s("3"));
    assert_eq!(m, entries(vec![("a", s("9")), ("b", s("2")), ("c", s("3"))]));
}

#[test]
fn find_key_gives_first_position() {
    let m = entries(vec![("a", s("1")), ("b", s("2")), ("b", s("3"))]);
    assert_eq!(find_key(&m, &"b".to_string()), Some(1));
    assert_eq!(find_key(&m, &"z".to_string()), None);
}

#[test]
fn map_key_renames_listed_keys_only() {
    let table = vec![
        ("Azimut".to_string(), "Bearing".to_string()),
        ("Explorer".to_string(), "Diver".to_string()),
    ];
    assert_eq!(map_key(&table, &"Azimut".to_string()), "Bearing");
    assert_eq!(map_key(&table, &"Explorer".to_string()), "Diver");
    assert_eq!(map_key(&table, &"Depth".to_string()), "Depth");
}
