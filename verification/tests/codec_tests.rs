use cub3d_notify::codec::decode_envelope;
use cub3d_notify::codec::encode_envelope;
use cub3d_notify::envelope::NotificationData;
use cub3d_notify::envelope::NotificationMessage;
use cub3d_notify::envelope::NotificationPayload;

fn sample_envelope() -> NotificationData {
    NotificationData {
        target_app_id: "cub3d.notify".to_string(),
        message: Some(NotificationMessage {
            title: "T".to_string(),
            content: "B".to_string(),
        }),
        data_payload: Some(vec![
            NotificationPayload { key: "title".to_string(), value: "T2".to_string() },
            NotificationPayload { key: "body".to_string(), value: "B2".to_string() },
        ]),
    }
}

#[test]
fn decode_direct_shape() {
    let d = decode_envelope("{\"targetAppID\":\"x\",\"message\":{\"title\":\"T\",\"content\":\"B\"}}")
        .expect("valid envelope");
    assert!(d.target_app_id == "x");
    let m = d.message.expect("message present");
    assert!(m.title == "T");
    assert!(m.content == "B");
    assert!(d.data_payload.is_none());
}

#[test]
fn decode_keyed_shape() {
    let d = decode_envelope(
        "{\"targetAppID\":\"cub3d.notify\",\"dataPayload\":[{\"key\":\"title\",\"value\":\"T2\"},{\"key\":\"body\",\"value\":\"B2\"}]}",
    )
    .expect("valid envelope");
    assert!(d.target_app_id == "cub3d.notify");
    assert!(d.message.is_none());
    let p = d.data_payload.expect("payload present");
    assert!(p.len() == 2);
    assert!(p[0].key == "title" && p[0].value == "T2");
    assert!(p[1].key == "body" && p[1].value == "B2");
}

#[test]
fn decode_tolerates_whitespace() {
    let d = decode_envelope(
        " {\n  \"targetAppID\" : \"x\" ,\t\"message\" : { \"title\" : \"a\" , \"content\" : \"b\" }\n} ",
    )
    .expect("valid envelope");
    assert!(d.target_app_id == "x");
    let m = d.message.expect("message present");
    assert!(m.title == "a" && m.content == "b");
}

#[test]
fn decode_ignores_unknown_fields() {
    let d = decode_envelope(
        "{\"targetAppID\":\"x\",\"extra\":123,\"more\":[true,null,{\"a\":\"b\"}],\"flag\":false}",
    )
    .expect("valid envelope");
    assert!(d.target_app_id == "x");
    assert!(d.message.is_none());
    assert!(d.data_payload.is_none());
}

#[test]
fn decode_unescapes_strings() {
    let d = decode_envelope(
        "{\"targetAppID\":\"a\\\"b\\\\c\\nd\\te\"}",
    )
    .expect("valid envelope");
    assert!(d.target_app_id == "a\"b\\c\nd\te");
}

#[test]
fn decode_empty_payload_array() {
    let d = decode_envelope("{\"targetAppID\":\"x\",\"dataPayload\":[]}").expect("valid envelope");
    let p = d.data_payload.expect("payload present");
    assert!(p.is_empty());
}

#[test]
fn decode_rejects_malformed_input() {
    assert!(decode_envelope("").is_none());
    assert!(decode_envelope("not json").is_none());
    assert!(decode_envelope("{").is_none());
    assert!(decode_envelope("{}").is_none()); // required field missing
    assert!(decode_envelope("[1,2]").is_none());
    assert!(decode_envelope("{\"targetAppID\":42}").is_none());
    assert!(decode_envelope("{\"targetAppID\":\"x\"} trailing").is_none());
    assert!(decode_envelope("{\"targetAppID\":\"x\",}").is_none());
    assert!(decode_envelope("{\"targetAppID\":\"x\"").is_none());
}

#[test]
fn decode_rejects_duplicate_fields() {
    assert!(decode_envelope("{\"targetAppID\":\"x\",\"targetAppID\":\"y\"}").is_none());
}

#[test]
fn decode_rejects_incomplete_message() {
    assert!(decode_envelope("{\"targetAppID\":\"x\",\"message\":{\"title\":\"T\"}}").is_none());
    assert!(decode_envelope("{\"targetAppID\":\"x\",\"message\":{}}").is_none());
}

#[test]
fn decode_rejects_incomplete_entry() {
    assert!(
        decode_envelope("{\"targetAppID\":\"x\",\"dataPayload\":[{\"key\":\"title\"}]}").is_none()
    );
}

#[test]
fn decode_is_deterministic() {
    let raw = "{\"targetAppID\":\"x\",\"message\":{\"title\":\"T\",\"content\":\"B\"}}";
    let a = decode_envelope(raw).expect("valid envelope");
    let b = decode_envelope(raw).expect("valid envelope");
    assert!(a.target_app_id == b.target_app_id);
    assert!(a.message.map(|m| (m.title, m.content)) == b.message.map(|m| (m.title, m.content)));
    assert!(a.data_payload.is_none() && b.data_payload.is_none());
}

#[test]
fn encode_decode_round_trip() {
    let original = sample_envelope();
    let text = encode_envelope(&original);
    let back = decode_envelope(text.as_str()).expect("encoded envelope decodes");
    assert!(back.target_app_id == original.target_app_id);
    let (bm, om) = (back.message.unwrap(), original.message.unwrap());
    assert!(bm.title == om.title && bm.content == om.content);
    let (bp, op) = (back.data_payload.unwrap(), original.data_payload.unwrap());
    assert!(bp.len() == op.len());
    for (b, o) in bp.iter().zip(op.iter()) {
        assert!(b.key == o.key && b.value == o.value);
    }
}

#[test]
fn encode_decode_round_trip_with_escapes() {
    let original = NotificationData {
        target_app_id: "quote \" and backslash \\ and newline \n".to_string(),
        message: None,
        data_payload: None,
    };
    let text = encode_envelope(&original);
    let back = decode_envelope(text.as_str()).expect("encoded envelope decodes");
    assert!(back.target_app_id == original.target_app_id);
    assert!(back.message.is_none() && back.data_payload.is_none());
}

#[test]
fn encode_emits_well_formed_json() {
    // cross-check the encoder against an independent reader of the notation
    let text = encode_envelope(&sample_envelope());
    let value: serde_json::Value = serde_json::from_str(text.as_str()).expect("well-formed");
    assert!(value["targetAppID"] == serde_json::Value::String("cub3d.notify".to_string()));
    assert!(value["message"]["title"] == serde_json::Value::String("T".to_string()));
    assert!(value["message"]["content"] == serde_json::Value::String("B".to_string()));
    let entries = value["dataPayload"].as_array().expect("array");
    assert!(entries.len() == 2);
    assert!(entries[0]["key"] == serde_json::Value::String("title".to_string()));
    assert!(entries[1]["value"] == serde_json::Value::String("B2".to_string()));
}

#[test]
fn encode_escapes_like_the_independent_reader() {
    let original = NotificationData {
        target_app_id: "a\"b\\c".to_string(),
        message: None,
        data_payload: None,
    };
    let text = encode_envelope(&original);
    let value: serde_json::Value = serde_json::from_str(text.as_str()).expect("well-formed");
    assert!(value["targetAppID"] == serde_json::Value::String("a\"b\\c".to_string()));
}
