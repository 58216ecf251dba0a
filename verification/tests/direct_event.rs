use ruma_core::BasicEvent;
use ruma_core::DirectEvent;
use ruma_core::DirectEventContent;
use ruma_core::JsonValue;

fn room_list(names: &[&str]) -> Vec<String> {
    names.iter().map(|n| n.to_string()).collect()
}

fn direct_wire_object(user: &str, rooms: &[&str]) -> JsonValue {
    JsonValue::Obj(vec![
        (
            "content".to_string(),
            JsonValue::Obj(vec![(
                user.to_string(),
                JsonValue::Arr(rooms.iter().map(|r| JsonValue::Str(r.to_string())).collect()),
            )]),
        ),
        ("type".to_string(), JsonValue::Str("m.direct".to_string())),
    ])
}

#[test]
fn serialization() {
    let mut content = DirectEventContent::new();
    let alice = "@alice:ruma.io".to_string();
    let room = room_list(&["!1:ruma.io"]);

    content.insert(alice.clone(), room.clone());

    let event = DirectEvent { content };
    let json_data = direct_wire_object("@alice:ruma.io", &["!1:ruma.io"]);

    assert_eq!(event.to_json(), json_data);
}

#[test]
fn deserialization() {
    let alice = "@alice:ruma.io".to_string();
    let rooms = room_list(&["!1:ruma.io", "!2:ruma.io"]);

    let json_data = direct_wire_object("@alice:ruma.io", &["!1:ruma.io", "!2:ruma.io"]);

    let event: DirectEvent = BasicEvent::from_json(&json_data).unwrap();
    let direct_rooms = event.content.get(&alice).unwrap();

    assert!(direct_rooms.contains(&rooms[0]));
    assert!(direct_rooms.contains(&rooms[1]));
}

#[test]
fn round_trip_multiple_users() {
    let mut content = DirectEventContent::new();
    content.insert("@alice:ruma.io".to_string(), room_list(&["!a:ruma.io", "!b:ruma.io"]));
    content.insert("@bob:ruma.io".to_string(), room_list(&["!c:ruma.io"]));
    content.insert("@carol:ruma.io".to_string(), room_list(&[]));

    let event = DirectEvent { content: content.clone() };
    let wire = event.to_json();
    let decoded: DirectEvent = BasicEvent::from_json(&wire).unwrap();

    assert_eq!(decoded.content, content);
}

#[test]
fn insert_replaces_previous_binding() {
    let mut content = DirectEventContent::new();
    let first = room_list(&["!1:ruma.io", "!2:ruma.io"]);
    let second = room_list(&["!3:ruma.io", "!2:ruma.io", "!1:ruma.io"]);

    assert_eq!(content.insert("@a:ruma.io".to_string(), first.clone()), None);
    let prev = content.insert("@a:ruma.io".to_string(), second.clone());

    assert_eq!(prev, Some(first));
    assert_eq!(content.get("@a:ruma.io"), Some(&second));
    assert_eq!(content.len(), 1);
}

#[test]
fn mapping_keeps_insertion_order() {
    let mut content = DirectEventContent::new();
    content.insert("@b:ruma.io".to_string(), room_list(&["!1:x"]));
    content.insert("@a:ruma.io".to_string(), room_list(&["!2:x"]));

    let entries = content.entries();
    assert_eq!(entries[0].0, "@b:ruma.io");
    assert_eq!(entries[1].0, "@a:ruma.io");
    assert!(!content.is_empty());
}

#[test]
fn event_type_is_discoverable() {
    assert_eq!(<DirectEventContent as ruma_core::EventContent>::event_type(), "m.direct");
}

#[test]
fn duplicate_wire_keys_keep_last_binding() {
    let wire = JsonValue::Obj(vec![
        (
            "content".to_string(),
            JsonValue::Obj(vec![
                ("@a:x".to_string(), JsonValue::Arr(vec![JsonValue::Str("!1:x".to_string())])),
                ("@a:x".to_string(), JsonValue::Arr(vec![JsonValue::Str("!2:x".to_string())])),
            ]),
        ),
        ("type".to_string(), JsonValue::Str("m.direct".to_string())),
    ]);
    let event: DirectEvent = BasicEvent::from_json(&wire).unwrap();
    assert_eq!(event.content.get("@a:x"), Some(&room_list(&["!2:x"])));
    assert_eq!(event.content.len(), 1);
}
