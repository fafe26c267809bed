use dododb::pubsub::{
    build_notification_body, notify_key_update, SubscribeRequest, SubscriptionRegistry,
};

fn req(key: &str, callback: &str) -> SubscribeRequest {
    SubscribeRequest { key: key.to_string(), callback: callback.to_string() }
}

#[test]
fn subscribe_assigns_increasing_ids_from_one() {
    let mut reg = SubscriptionRegistry::new();
    let a = reg.subscribe(req("x", "http://u1/hook"));
    let b = reg.subscribe(req("x", "http://u2/hook"));
    let c = reg.subscribe(req("y", "http://u3/hook"));
    assert_eq!(a, 1);
    assert_eq!(b, 2);
    assert_eq!(c, 3);
}

#[test]
fn ids_are_not_reused_after_unsubscribe() {
    let mut reg = SubscriptionRegistry::new();
    let a = reg.subscribe(req("x", "http://u1/hook"));
    assert!(reg.unsubscribe(a));
    let b = reg.subscribe(req("x", "http://u1/hook"));
    assert_ne!(a, b);
    assert_eq!(b, 2);
}

#[test]
fn unsubscribe_reports_true_then_false() {
    let mut reg = SubscriptionRegistry::new();
    let id = reg.subscribe(req("x", "http://u/hook"));
    assert_eq!(reg.unsubscribe(id), true);
    assert_eq!(reg.unsubscribe(id), false);
}

#[test]
fn unsubscribe_unknown_id_reports_false() {
    let mut reg = SubscriptionRegistry::new();
    assert_eq!(reg.unsubscribe(99), false);
}

#[test]
fn duplicate_registrations_each_get_notified() {
    let mut reg = SubscriptionRegistry::new();
    reg.subscribe(req("x", "http://u/hook"));
    reg.subscribe(req("x", "http://u/hook"));
    let (targets, _body) = notify_key_update(
        &reg,
        &"x".to_string(),
        None,
        &"1".to_string(),
    );
    assert_eq!(targets.len(), 2);
}

#[test]
fn notification_targets_exactly_the_matching_key() {
    let mut reg = SubscriptionRegistry::new();
    let id = reg.subscribe(req("x", "http://u/hook"));
    reg.subscribe(req("other", "http://elsewhere/hook"));

    let (for_x, body_x) = notify_key_update(&reg, &"x".to_string(), None, &"7".to_string());
    assert_eq!(for_x.len(), 1);
    assert_eq!(for_x[0].id, id);
    assert_eq!(for_x[0].callback, "http://u/hook");
    assert!(body_x.contains("\"new_value\":7"));

    let (for_y, _) = notify_key_update(&reg, &"y".to_string(), None, &"7".to_string());
    assert_eq!(for_y.len(), 0);
}

#[test]
fn notification_body_carries_old_and_new_value() {
    let body = build_notification_body(
        &"k".to_string(),
        Some(&"\"before\"".to_string()),
        &"\"after\"".to_string(),
        &"2024-01-02T03:04:05+00:00".to_string(),
    );
    assert_eq!(
        body,
        "{\"event\":\"update\",\"key\":\"k\",\"new_value\":\"after\",\
         \"old_value\":\"before\",\"timestamp\":\"2024-01-02T03:04:05+00:00\"}"
    );
}

#[test]
fn notification_body_uses_null_for_missing_old_value() {
    let body = build_notification_body(
        &"k".to_string(),
        None,
        &"5".to_string(),
        &"t".to_string(),
    );
    assert_eq!(
        body,
        "{\"event\":\"update\",\"key\":\"k\",\"new_value\":5,\"old_value\":null,\"timestamp\":\"t\"}"
    );
}

#[test]
fn notification_body_escapes_key_and_timestamp() {
    let body = build_notification_body(
        &"a\"b\\c".to_string(),
        None,
        &"1".to_string(),
        &"x\ny".to_string(),
    );
    assert_eq!(
        body,
        "{\"event\":\"update\",\"key\":\"a\\\"b\\\\c\",\"new_value\":1,\
         \"old_value\":null,\"timestamp\":\"x\\ny\"}"
    );
}

#[test]
fn notification_body_is_valid_json() {
    let body = build_notification_body(
        &"k".to_string(),
        Some(&"{\"a\":1}".to_string()),
        &"[1,2,3]".to_string(),
        &"2024-01-02T03:04:05+00:00".to_string(),
    );
    let v: serde_json::Value = serde_json::from_str(&body).expect("body must parse");
    assert_eq!(v["event"], "update");
    assert_eq!(v["key"], "k");
    assert_eq!(v["old_value"]["a"], 1);
    assert_eq!(v["new_value"][2], 3);
}
