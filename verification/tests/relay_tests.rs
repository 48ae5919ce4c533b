use chat_relay::relay::{
    get_token, handshake_params, operator_room, select_client_ip, HandshakeError, Role,
};
use chat_relay::store::ChatRoom;

#[test]
fn handshake_requires_site_key_and_role() {
    assert!(matches!(
        handshake_params(None, Some("0".to_string()), None),
        Err(HandshakeError::MissingSiteKey)
    ));
    assert!(matches!(
        handshake_params(Some("s1".to_string()), None, None),
        Err(HandshakeError::MissingClient)
    ));
    assert!(matches!(
        handshake_params(Some("s1".to_string()), Some("2".to_string()), None),
        Err(HandshakeError::InvalidRole)
    ));
    assert!(matches!(
        handshake_params(Some("s1".to_string()), Some("0".to_string()), None),
        Err(HandshakeError::MissingRoomKey)
    ));
}

#[test]
fn handshake_admits_both_roles() {
    let op = handshake_params(
        Some("s1".to_string()),
        Some("0".to_string()),
        Some("r1".to_string()),
    )
    .unwrap();
    assert_eq!(op.role, Role::Operator);
    assert_eq!(op.site_key, "s1");
    assert_eq!(op.room_key.as_deref(), Some("r1"));
    let visitor = handshake_params(Some("s1".to_string()), Some("1".to_string()), None).unwrap();
    assert_eq!(visitor.role, Role::Visitor);
    assert!(visitor.room_key.is_none());
}

#[test]
fn operator_room_degrades_to_placeholder() {
    let looked_up = ChatRoom {
        id: 3,
        room_key: "r1".to_string(),
        status: "active".to_string(),
        room_site_id: 7,
        client_info: None,
        create_at: 1,
        update_at: 2,
    };
    let kept = operator_room(Some(looked_up));
    assert_eq!(kept.id, 3);
    assert_eq!(kept.room_key, "r1");
    let placeholder = operator_room(None);
    assert_eq!(placeholder.id, 0);
    assert_eq!(placeholder.room_key, "");
    assert_eq!(placeholder.client_info, None);
}

#[test]
fn bearer_tokens_are_stripped() {
    assert_eq!(get_token(Some("Bearer abc.def")), Some("abc.def".to_string()));
    assert_eq!(get_token(Some("abc.def")), Some("abc.def".to_string()));
    assert_eq!(get_token(Some("Bearer ")), None);
    assert_eq!(get_token(Some("")), None);
    assert_eq!(get_token(None), None);
}

#[test]
fn forwarded_header_wins_for_the_client_ip() {
    assert_eq!(select_client_ip(Some("10.0.0.1, 10.0.0.2"), "192.168.0.9"), "10.0.0.1");
    assert_eq!(select_client_ip(Some(" 10.0.0.1 "), "192.168.0.9"), "10.0.0.1");
    assert_eq!(select_client_ip(Some(""), "192.168.0.9"), "192.168.0.9");
    assert_eq!(select_client_ip(None, "192.168.0.9"), "192.168.0.9");
}

#[test]
fn settings_derive_the_clock_offset() {
    let s = chat_relay::config::Settings {
        redis_url: "redis://localhost".to_string(),
        oss_access_key_id: String::new(),
        oss_access_key_secret: String::new(),
        oss_endpoint: String::new(),
        oss_bucket_name: String::new(),
        time_zone: 8,
    };
    assert_eq!(s.offset_seconds(), 8 * 3600);
}
