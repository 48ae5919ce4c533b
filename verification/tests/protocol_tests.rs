use chat_relay::session::{
    parse_frame, stamp_message, trim_spaces, Command, SessionState, WsChatSession,
    CLIENT_TIMEOUT_MS,
};

#[test]
fn slash_commands_parse() {
    assert!(matches!(parse_frame("/list"), Command::List));
    assert!(matches!(parse_frame("  /list  "), Command::List));
    match parse_frame("/join r2") {
        Command::Join(room) => assert_eq!(room, "r2"),
        other => panic!("expected a join, got {:?}", std::mem::discriminant(&other)),
    }
    assert!(matches!(parse_frame("/join"), Command::JoinNoArg));
    match parse_frame("/name ada lovelace") {
        Command::Name(name) => assert_eq!(name, "ada lovelace"),
        _ => panic!("expected a name"),
    }
    assert!(matches!(parse_frame("/name"), Command::NameNoArg));
    assert!(matches!(parse_frame("/frobnicate now"), Command::Unknown));
}

#[test]
fn anything_else_is_a_chat_payload() {
    match parse_frame("  {\"content\":\"hi\"}  ") {
        Command::Chat(text) => assert_eq!(text, "{\"content\":\"hi\"}"),
        _ => panic!("expected a chat payload"),
    }
    match parse_frame("") {
        Command::Chat(text) => assert_eq!(text, ""),
        _ => panic!("expected a chat payload"),
    }
}

#[test]
fn trimming_strips_both_ends() {
    assert_eq!(trim_spaces("  hi there \r\n"), "hi there");
    assert_eq!(trim_spaces("\t\t"), "");
    assert_eq!(trim_spaces("x"), "x");
}

#[test]
fn session_lifecycle_runs_connecting_active_closed() {
    let mut s = WsChatSession::new(
        "s1".to_string(),
        "7".to_string(),
        7,
        None,
        None,
        1000,
    );
    assert_eq!(s.state, SessionState::Connecting);
    assert_eq!(s.user_type, 1);
    s.on_registered(42);
    assert_eq!(s.state, SessionState::Active);
    assert_eq!(s.id, 42);
    s.set_name("bob".to_string());
    assert_eq!(s.name.as_deref(), Some("bob"));
    s.on_closed();
    assert_eq!(s.state, SessionState::Closed);
}

#[test]
fn heartbeat_times_out_strictly_after_the_deadline() {
    let mut s = WsChatSession::new("s1".to_string(), "7".to_string(), 7, Some(1), None, 1000);
    assert_eq!(s.user_type, 0);
    assert!(!s.hb_timed_out(1000 + CLIENT_TIMEOUT_MS));
    assert!(s.hb_timed_out(1001 + CLIENT_TIMEOUT_MS));
    s.on_heartbeat(50_000);
    assert!(!s.hb_timed_out(50_000 + CLIENT_TIMEOUT_MS));
}

#[test]
fn stamping_overwrites_the_server_fields() {
    let m = stamp_message(
        "hello",
        Some("[]".to_string()),
        Some("ada".to_string()),
        9,
        Some(4),
        777,
    );
    assert_eq!(m.content, "hello");
    assert_eq!(m.status, "sended");
    assert_eq!(m.room_id, 9);
    assert_eq!(m.user_id, Some(4));
    assert_eq!(m.name, "ada");
    assert_eq!(m.str_files.as_deref(), Some("[]"));
    assert_eq!(m.create_at, 777);
    assert_eq!(m.update_at, 777);
    let anon = stamp_message("hi", None, None, 9, None, 777);
    assert_eq!(anon.name, "");
    assert_eq!(anon.user_id, None);
}
