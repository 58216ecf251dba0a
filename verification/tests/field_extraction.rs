use ruma_core::BasicEvent;
use ruma_core::DecodeError;
use ruma_core::DirectEvent;
use ruma_core::JsonValue;
use ruma_core::get_field;
use ruma_core::try_variant_from_value;

#[derive(Debug, PartialEq)]
enum AnyContent {
    Name(String),
}

#[test]
fn missing_content_field() {
    let wire = JsonValue::Obj(vec![("type".to_string(), JsonValue::Str("m.direct".to_string()))]);
    let err = BasicEvent::<ruma_core::DirectEventContent>::from_json(&wire).unwrap_err();
    assert_eq!(err, DecodeError::MissingField("content".to_string()));
}

#[test]
fn missing_type_field() {
    let wire = JsonValue::Obj(vec![("content".to_string(), JsonValue::Obj(vec![]))]);
    let err = BasicEvent::<ruma_core::DirectEventContent>::from_json(&wire).unwrap_err();
    assert_eq!(err, DecodeError::MissingField("type".to_string()));
}

#[test]
fn decode_failure_names_the_field() {
    // The room list is a string where an array was expected: the error
    // must name `content`, not merely report a generic decode failure.
    let wire = JsonValue::Obj(vec![
        (
            "content".to_string(),
            JsonValue::Obj(vec![("@a:x".to_string(), JsonValue::Str("!1:x".to_string()))]),
        ),
        ("type".to_string(), JsonValue::Str("m.direct".to_string())),
    ]);
    let err: DecodeError = BasicEvent::<ruma_core::DirectEventContent>::from_json(&wire)
        .unwrap_err();
    match err {
        DecodeError::MalformedValue(msg) => {
            assert!(msg.starts_with("content: "));
            assert_eq!(msg, "content: expected an array of strings");
        },
        other => panic!("expected a malformed-value error, got {:?}", other),
    }
}

#[test]
fn type_must_be_a_string() {
    let wire = JsonValue::Obj(vec![
        ("content".to_string(), JsonValue::Obj(vec![])),
        ("type".to_string(), JsonValue::Int(7)),
    ]);
    let err = BasicEvent::<ruma_core::DirectEventContent>::from_json(&wire).unwrap_err();
    assert_eq!(err, DecodeError::MalformedValue("type: expected a string".to_string()));
}

#[test]
fn get_field_extracts_and_decodes() {
    let obj = JsonValue::Obj(vec![
        ("sender".to_string(), JsonValue::Str("@alice:ruma.io".to_string())),
        ("origin".to_string(), JsonValue::Str("ruma.io".to_string())),
    ]);
    let sender: String = get_field(&obj, "sender").unwrap();
    assert_eq!(sender, "@alice:ruma.io");
    let missing: Result<String, DecodeError> = get_field(&obj, "event_id");
    assert_eq!(missing.unwrap_err(), DecodeError::MissingField("event_id".to_string()));
}

#[test]
fn get_field_on_non_object_is_missing() {
    let not_an_object = JsonValue::Str("hello".to_string());
    let r: Result<String, DecodeError> = get_field(&not_an_object, "content");
    assert_eq!(r.unwrap_err(), DecodeError::MissingField("content".to_string()));
}

#[test]
fn variant_lifting() {
    let value = JsonValue::Str("m.room.message".to_string());
    let lifted: Result<AnyContent, DecodeError> = try_variant_from_value(value, AnyContent::Name);
    assert_eq!(lifted.unwrap(), AnyContent::Name("m.room.message".to_string()));

    let bad = JsonValue::Arr(vec![]);
    let failed: Result<AnyContent, DecodeError> = try_variant_from_value(bad, AnyContent::Name);
    assert_eq!(failed.unwrap_err(), DecodeError::MalformedValue("expected a string".to_string()));
}

#[test]
fn content_must_be_an_object() {
    let wire = JsonValue::Obj(vec![
        ("content".to_string(), JsonValue::Arr(vec![])),
        ("type".to_string(), JsonValue::Str("m.direct".to_string())),
    ]);
    let err: DecodeError = BasicEvent::<ruma_core::DirectEventContent>::from_json(&wire)
        .unwrap_err();
    assert_eq!(
        err,
        DecodeError::MalformedValue("content: expected a JSON object".to_string())
    );
}

#[test]
fn unknown_siblings_are_ignored() {
    let wire = JsonValue::Obj(vec![
        ("event_id".to_string(), JsonValue::Str("$1:x".to_string())),
        ("content".to_string(), JsonValue::Obj(vec![])),
        ("type".to_string(), JsonValue::Str("m.direct".to_string())),
        ("origin_ts".to_string(), JsonValue::Int(0)),
    ]);
    let event: DirectEvent = BasicEvent::from_json(&wire).unwrap();
    assert!(event.content.is_empty());
}
