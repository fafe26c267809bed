use dododb::kv_service::{
    clear, count, delete, get, get_all, key_exists, list, new_store, set_at,
};

#[test]
fn set_then_get_round_trip() {
    let mut store = new_store();
    let prior = set_at(&mut store, "alpha".to_string(), "42".to_string(), 100);
    assert_eq!(prior, None);
    let got = get(&store, &"alpha".to_string());
    assert_eq!(got, Some("42".to_string()));
}

#[test]
fn set_then_get_json_object_payload() {
    let mut store = new_store();
    set_at(
        &mut store,
        "conf".to_string(),
        "{\"a\":1,\"b\":[true,null]}".to_string(),
        7,
    );
    assert_eq!(
        get(&store, &"conf".to_string()),
        Some("{\"a\":1,\"b\":[true,null]}".to_string())
    );
}

#[test]
fn get_absent_key_is_not_found() {
    let store = new_store();
    assert_eq!(get(&store, &"missing".to_string()), None);
}

#[test]
fn get_undecodable_payload_reads_as_nothing() {
    let mut store = new_store();
    set_at(&mut store, "bad".to_string(), "not json".to_string(), 1);
    assert_eq!(get(&store, &"bad".to_string()), None);
    assert!(key_exists(&store, &"bad".to_string()));
}

#[test]
fn delete_then_get_is_not_found() {
    let mut store = new_store();
    set_at(&mut store, "k".to_string(), "1".to_string(), 5);
    delete(&mut store, &"k".to_string());
    assert_eq!(get(&store, &"k".to_string()), None);
}

#[test]
fn delete_absent_key_is_harmless() {
    let mut store = new_store();
    delete(&mut store, &"never".to_string());
    assert_eq!(count(&store), 0);
}

#[test]
fn update_visibility() {
    let mut store = new_store();
    let first = set_at(&mut store, "k".to_string(), "\"v1\"".to_string(), 1);
    assert_eq!(first, None);
    let second = set_at(&mut store, "k".to_string(), "\"v2\"".to_string(), 2);
    assert_eq!(second, Some("\"v1\"".to_string()));
    assert_eq!(get(&store, &"k".to_string()), Some("\"v2\"".to_string()));
}

#[test]
fn prior_value_hidden_when_undecodable() {
    let mut store = new_store();
    set_at(&mut store, "k".to_string(), "broken {".to_string(), 1);
    let prior = set_at(&mut store, "k".to_string(), "2".to_string(), 2);
    assert_eq!(prior, None);
}

#[test]
fn list_and_count() {
    let mut store = new_store();
    set_at(&mut store, "a".to_string(), "1".to_string(), 1);
    set_at(&mut store, "b".to_string(), "2".to_string(), 1);
    set_at(&mut store, "a".to_string(), "3".to_string(), 2);
    assert_eq!(count(&store), 2);
    let mut keys = list(&store);
    keys.sort();
    assert_eq!(keys, vec!["a".to_string(), "b".to_string()]);
}

#[test]
fn clear_empties_the_store() {
    let mut store = new_store();
    set_at(&mut store, "a".to_string(), "1".to_string(), 1);
    set_at(&mut store, "b".to_string(), "2".to_string(), 1);
    clear(&mut store);
    assert_eq!(count(&store), 0);
    assert_eq!(get(&store, &"a".to_string()), None);
}

#[test]
fn get_all_omits_undecodable_entries() {
    let mut store = new_store();
    set_at(&mut store, "good".to_string(), "[1,2]".to_string(), 1);
    set_at(&mut store, "bad".to_string(), "nope nope".to_string(), 1);
    let all = get_all(&store);
    assert_eq!(all.len(), 1);
    assert_eq!(all[0].key, "good");
    assert_eq!(all[0].value, "[1,2]");
}

#[test]
fn set_with_clock_stores_value() {
    let mut store = new_store();
    let prior = dododb::kv_service::set(&mut store, "now".to_string(), "true".to_string());
    assert_eq!(prior, None);
    assert_eq!(get(&store, &"now".to_string()), Some("true".to_string()));
}

#[test]
fn concurrent_style_writes_on_distinct_keys_all_land() {
    let mut store = new_store();
    for i in 0..50 {
        set_at(&mut store, format!("key{}", i), format!("{}", i), i);
    }
    assert_eq!(count(&store), 50);
    for i in 0..50 {
        assert_eq!(get(&store, &format!("key{}", i)), Some(format!("{}", i)));
    }
}
