use cub3d_notify::envelope::NotificationData;
use cub3d_notify::envelope::NotificationMessage;
use cub3d_notify::envelope::NotificationPayload;
use cub3d_notify::resolver::resolve;

fn entry(key: &str, value: &str) -> NotificationPayload {
    NotificationPayload { key: key.to_string(), value: value.to_string() }
}

#[test]
fn direct_rule_emits_one_request() {
    let data = NotificationData {
        target_app_id: "x".to_string(),
        message: Some(NotificationMessage {
            title: "T".to_string(),
            content: "B".to_string(),
        }),
        data_payload: None,
    };
    let requests = resolve(&data);
    assert!(requests.len() == 1);
    assert!(requests[0].title == Some("T".to_string()));
    assert!(requests[0].body == Some("B".to_string()));
}

#[test]
fn keyed_rule_emits_one_request() {
    let data = NotificationData {
        target_app_id: "cub3d.notify".to_string(),
        message: None,
        data_payload: Some(vec![entry("title", "T2"), entry("body", "B2")]),
    };
    let requests = resolve(&data);
    assert!(requests.len() == 1);
    assert!(requests[0].title == Some("T2".to_string()));
    assert!(requests[0].body == Some("B2".to_string()));
}

#[test]
fn keyed_rule_first_duplicate_wins() {
    let data = NotificationData {
        target_app_id: "cub3d.notify".to_string(),
        message: None,
        data_payload: Some(vec![entry("title", "first"), entry("title", "second")]),
    };
    let requests = resolve(&data);
    assert!(requests.len() == 1);
    assert!(requests[0].title == Some("first".to_string()));
    assert!(requests[0].body == None);
}

#[test]
fn keyed_rule_emits_even_with_missing_keys() {
    let data = NotificationData {
        target_app_id: "cub3d.notify".to_string(),
        message: None,
        data_payload: Some(vec![entry("other", "x")]),
    };
    let requests = resolve(&data);
    assert!(requests.len() == 1);
    assert!(requests[0].title == None);
    assert!(requests[0].body == None);
}

#[test]
fn keyed_rule_emits_with_absent_payload() {
    let data = NotificationData {
        target_app_id: "cub3d.notify".to_string(),
        message: None,
        data_payload: None,
    };
    let requests = resolve(&data);
    assert!(requests.len() == 1);
    assert!(requests[0].title == None && requests[0].body == None);
}

#[test]
fn both_rules_fire_direct_first() {
    let data = NotificationData {
        target_app_id: "cub3d.notify".to_string(),
        message: Some(NotificationMessage {
            title: "T".to_string(),
            content: "B".to_string(),
        }),
        data_payload: Some(vec![entry("title", "T2"), entry("body", "B2")]),
    };
    let requests = resolve(&data);
    assert!(requests.len() == 2);
    assert!(requests[0].title == Some("T".to_string()));
    assert!(requests[0].body == Some("B".to_string()));
    assert!(requests[1].title == Some("T2".to_string()));
    assert!(requests[1].body == Some("B2".to_string()));
}

#[test]
fn selector_mismatch_without_message_emits_nothing() {
    let data = NotificationData {
        target_app_id: "someone.else".to_string(),
        message: None,
        data_payload: Some(vec![entry("title", "T2")]),
    };
    let requests = resolve(&data);
    assert!(requests.is_empty());
}

#[test]
fn get_payload_returns_first_match() {
    let data = NotificationData {
        target_app_id: "x".to_string(),
        message: None,
        data_payload: Some(vec![entry("a", "1"), entry("b", "2"), entry("a", "3")]),
    };
    assert!(data.get_payload("a") == Some(&"1".to_string()));
    assert!(data.get_payload("b") == Some(&"2".to_string()));
    assert!(data.get_payload("c") == None);
}

#[test]
fn get_payload_without_payload_is_none() {
    let data = NotificationData {
        target_app_id: "x".to_string(),
        message: None,
        data_payload: None,
    };
    assert!(data.get_payload("title") == None);
}
