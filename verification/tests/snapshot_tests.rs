use dododb::errors::DodoError;
use dododb::kv_service::{count, get, new_store, set_at};
use dododb::persistence::{load_snapshot_at, purge_expired_at, save_snapshot};
use dododb::store::Entry;

#[test]
fn save_then_load_reproduces_the_store() {
    let mut store = new_store();
    set_at(&mut store, "a".to_string(), "1".to_string(), 10);
    set_at(&mut store, "b".to_string(), "\"two\"".to_string(), 20);
    set_at(&mut store, "weird \"key\"\\".to_string(), "[null]".to_string(), -5);

    let text = save_snapshot(&store);

    let mut fresh = new_store();
    let loaded = load_snapshot_at(&mut fresh, &text, None, 1000);
    assert_eq!(loaded, Ok(3));

    for key in ["a", "b", "weird \"key\"\\"] {
        let orig = store.get(&key.to_string()).map(Entry::clone);
        let back = fresh.get(&key.to_string()).map(Entry::clone);
        let orig = orig.expect("present before save");
        let back = back.expect("present after load");
        assert_eq!(orig.value, back.value);
        assert_eq!(orig.created_at, back.created_at);
    }
}

#[test]
fn snapshot_text_has_the_documented_shape() {
    let mut store = new_store();
    set_at(&mut store, "k".to_string(), "7".to_string(), 123);
    let text = save_snapshot(&store);
    assert_eq!(text, "{\"k\":{\"value\":\"7\",\"created_at\":123}}");
    let v: serde_json::Value = serde_json::from_str(&text).expect("snapshot is JSON");
    assert_eq!(v["k"]["value"], "7");
    assert_eq!(v["k"]["created_at"], 123);
}

#[test]
fn save_escapes_and_load_unescapes() {
    let mut store = new_store();
    set_at(
        &mut store,
        "tab\tand\nnewline".to_string(),
        "\"quote \\\" here\"".to_string(),
        1,
    );
    let text = save_snapshot(&store);
    let mut fresh = new_store();
    load_snapshot_at(&mut fresh, &text, None, 99).unwrap();
    assert_eq!(
        get(&fresh, &"tab\tand\nnewline".to_string()),
        Some("\"quote \\\" here\"".to_string())
    );
}

#[test]
fn retention_boundary_is_inclusive() {
    // At load time 100 with a window of 60: age 60 stays, age 61 goes.
    let text = "{\"old\":{\"value\":\"1\",\"created_at\":39},\
                 \"edge\":{\"value\":\"2\",\"created_at\":40},\
                 \"fresh\":{\"value\":\"3\",\"created_at\":99}}";
    let mut store = new_store();
    let loaded = load_snapshot_at(&mut store, text, Some(60), 100);
    assert_eq!(loaded, Ok(2));
    assert_eq!(get(&store, &"old".to_string()), None);
    assert_eq!(get(&store, &"edge".to_string()), Some("2".to_string()));
    assert_eq!(get(&store, &"fresh".to_string()), Some("3".to_string()));
}

#[test]
fn legacy_string_records_get_the_load_time() {
    let mut store = new_store();
    load_snapshot_at(&mut store, "{\"old\":\"plain\"}", None, 555).unwrap();
    let e = store.get(&"old".to_string()).map(Entry::clone).unwrap();
    assert_eq!(e.value, "plain");
    assert_eq!(e.created_at, 555);
}

#[test]
fn object_records_missing_a_field_are_skipped() {
    // The documented shape needs both a string value and an integer
    // created_at; a record missing either is silently skipped, the rest
    // still load.
    let mut store = new_store();
    let text = "{\"a\":{},\"b\":{\"created_at\":7},\"c\":{\"value\":\"x\"},\
                 \"ok\":{\"value\":\"1\",\"created_at\":8}}";
    let loaded = load_snapshot_at(&mut store, text, None, 42);
    assert_eq!(loaded, Ok(1));
    assert!(store.get(&"a".to_string()).is_none());
    assert!(store.get(&"b".to_string()).is_none());
    assert!(store.get(&"c".to_string()).is_none());
    assert_eq!(get(&store, &"ok".to_string()), Some("1".to_string()));
}

#[test]
fn object_records_with_wrong_types_are_skipped() {
    let mut store = new_store();
    let text = "{\"a\":{\"value\":5,\"created_at\":\"late\"}}";
    let loaded = load_snapshot_at(&mut store, text, None, 9);
    assert_eq!(loaded, Ok(0));
    assert!(store.get(&"a".to_string()).is_none());
}

#[test]
fn fractional_created_at_makes_the_record_malformed() {
    let mut store = new_store();
    let text = "{\"a\":{\"value\":\"v\",\"created_at\":1.5}}";
    let loaded = load_snapshot_at(&mut store, text, None, 77);
    assert_eq!(loaded, Ok(0));
    assert!(store.get(&"a".to_string()).is_none());
}

#[test]
fn records_of_other_shapes_are_skipped_not_fatal() {
    let mut store = new_store();
    let text = "{\"junk\":[1,2,{\"deep\":true}],\"keep\":{\"value\":\"7\",\"created_at\":3},\
                 \"alsojunk\":null,\"num\":12e4}";
    let loaded = load_snapshot_at(&mut store, text, None, 50);
    assert_eq!(loaded, Ok(1));
    assert_eq!(get(&store, &"keep".to_string()), Some("7".to_string()));
}

#[test]
fn malformed_json_aborts_the_whole_load() {
    let mut store = new_store();
    set_at(&mut store, "kept".to_string(), "1".to_string(), 5);
    let r = load_snapshot_at(&mut store, "{\"a\":{\"value\":\"x\"", None, 9);
    assert_eq!(r, Err(DodoError::SnapshotParse));
    assert_eq!(get(&store, &"kept".to_string()), Some("1".to_string()));
    assert_eq!(count(&store), 1);
}

#[test]
fn non_object_snapshot_aborts_the_load() {
    let mut store = new_store();
    let r = load_snapshot_at(&mut store, "[1,2,3]", None, 9);
    assert_eq!(r, Err(DodoError::SnapshotParse));
    let r2 = load_snapshot_at(&mut store, "\"hello\"", None, 9);
    assert_eq!(r2, Err(DodoError::SnapshotParse));
}

#[test]
fn leading_zero_numbers_are_malformed() {
    let mut store = new_store();
    let r = load_snapshot_at(&mut store, "{\"a\":01}", None, 9);
    assert_eq!(r, Err(DodoError::SnapshotParse));
}

#[test]
fn whitespace_between_tokens_is_accepted() {
    let mut store = new_store();
    let text = " { \"a\" :\n { \"value\" : \"x\" , \"created_at\" : 4 } }\t";
    load_snapshot_at(&mut store, text, None, 9).unwrap();
    let a = store.get(&"a".to_string()).map(Entry::clone).unwrap();
    assert_eq!(a.value, "x");
    assert_eq!(a.created_at, 4);
}

#[test]
fn unicode_escapes_in_snapshot_strings() {
    let mut store = new_store();
    let text = "{\"\\u0041\":{\"value\":\"\\uD83D\\uDE00\",\"created_at\":1}}";
    load_snapshot_at(&mut store, text, None, 9).unwrap();
    let a = store.get(&"A".to_string()).map(Entry::clone).unwrap();
    assert_eq!(a.value, "\u{1F600}");
}

#[test]
fn control_characters_round_trip_through_the_snapshot() {
    // Characters below 0x20 are written as \u00XX escapes and read back.
    let mut store = new_store();
    set_at(
        &mut store,
        "ctl\u{1}key\u{8}".to_string(),
        "bell\u{7} and form-feed\u{c}".to_string(),
        4,
    );
    let text = save_snapshot(&store);
    let mut fresh = new_store();
    load_snapshot_at(&mut fresh, &text, None, 9).unwrap();
    let e = fresh.get(&"ctl\u{1}key\u{8}".to_string()).map(Entry::clone).unwrap();
    assert_eq!(e.value, "bell\u{7} and form-feed\u{c}");
    assert_eq!(e.created_at, 4);
}

#[test]
fn negative_created_at_survives_the_round_trip() {
    let mut store = new_store();
    set_at(&mut store, "old".to_string(), "0".to_string(), -12345);
    let text = save_snapshot(&store);
    assert!(text.contains("\"created_at\":-12345"));
    let mut fresh = new_store();
    load_snapshot_at(&mut fresh, &text, None, 0).unwrap();
    let e = fresh.get(&"old".to_string()).map(Entry::clone).unwrap();
    assert_eq!(e.created_at, -12345);
}

#[test]
fn duplicate_keys_let_the_last_record_win() {
    let mut store = new_store();
    let text = "{\"k\":{\"value\":\"first\",\"created_at\":1},\
                 \"k\":{\"value\":\"second\",\"created_at\":2}}";
    load_snapshot_at(&mut store, text, None, 9).unwrap();
    let e = store.get(&"k".to_string()).map(Entry::clone).unwrap();
    assert_eq!(e.value, "second");
    // A duplicate whose last occurrence is skippable leaves the key absent.
    let mut store2 = new_store();
    let text2 = "{\"k\":{\"value\":\"first\",\"created_at\":1},\"k\":[1]}";
    let loaded = load_snapshot_at(&mut store2, text2, None, 9);
    assert_eq!(loaded, Ok(0));
}

#[test]
fn empty_snapshot_object_loads_an_empty_store() {
    let mut store = new_store();
    set_at(&mut store, "gone".to_string(), "1".to_string(), 5);
    let loaded = load_snapshot_at(&mut store, "{}", None, 9);
    assert_eq!(loaded, Ok(0));
    assert_eq!(count(&store), 0);
}

#[test]
fn cleanup_tick_removes_expired_entries() {
    let mut store = new_store();
    set_at(&mut store, "a".to_string(), "1".to_string(), 0);
    set_at(&mut store, "b".to_string(), "2".to_string(), 50);
    let removed = purge_expired_at(&mut store, 60, 70);
    assert_eq!(removed, 1);
    assert_eq!(get(&store, &"a".to_string()), None);
    assert_eq!(get(&store, &"b".to_string()), Some("2".to_string()));
}

#[test]
fn cleanup_with_zero_retention_removes_everything() {
    // Every entry goes, including one written at the tick's very instant.
    let mut store = new_store();
    set_at(&mut store, "a".to_string(), "1".to_string(), 0);
    set_at(&mut store, "b".to_string(), "2".to_string(), 5);
    set_at(&mut store, "at_tick".to_string(), "3".to_string(), 10);
    let removed = purge_expired_at(&mut store, 0, 10);
    assert_eq!(removed, 3);
    assert_eq!(count(&store), 0);
    assert_eq!(get(&store, &"at_tick".to_string()), None);
}

#[test]
fn scenario_set_then_cleanup_after_window() {
    // Configuration retention 60s: a key written at time 0 is swept at 70.
    let mut store = new_store();
    set_at(&mut store, "k".to_string(), "\"a\"".to_string(), 0);
    let removed = purge_expired_at(&mut store, 60, 70);
    assert_eq!(removed, 1);
    assert_eq!(get(&store, &"k".to_string()), None);
}

#[test]
fn config_cleanup_needs_both_settings() {
    let base = dododb::config::AppConfig {
        port: 8080,
        log_level: "info".to_string(),
        snapshot_path: "snapshot.json".to_string(),
        snapshot_interval: 60,
        server_version: "1.0".to_string(),
        retention_seconds: Some(60),
        cleanup_interval: Some(10),
    };
    assert!(base.cleanup_enabled());
    let no_interval = dododb::config::AppConfig { cleanup_interval: None, ..base };
    assert!(!no_interval.cleanup_enabled());
}
