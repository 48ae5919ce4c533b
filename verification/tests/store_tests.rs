use chat_relay::counter::CounterStore;
use chat_relay::store::{ChatError, ChatService, ChatWebsite, Persistence};

const NOW: u64 = 1_700_000_000;

fn site(id: u64, key: &str, status: &str) -> ChatWebsite {
    ChatWebsite {
        id,
        site_key: key.to_string(),
        status: status.to_string(),
        title: "shop".to_string(),
    }
}

#[test]
fn new_room_requires_a_confirmed_site() {
    let mut p = Persistence::new();
    let r = ChatService::new_room(&mut p, "nope", Some("R1".to_string()), NOW);
    assert_eq!(r.unwrap_err(), ChatError::SiteNotFound);
    p.add_site(site(1, "S1", "pending"));
    let r = ChatService::new_room(&mut p, "S1", Some("R1".to_string()), NOW);
    assert_eq!(r.unwrap_err(), ChatError::SiteNotFound);
    assert!(p.rooms.is_empty());
}

#[test]
fn new_room_creates_and_resumes() {
    let mut p = Persistence::new();
    p.add_site(site(1, "S1", "confirmed"));
    let created = ChatService::new_room(&mut p, "S1", Some("R1".to_string()), NOW).unwrap();
    assert_eq!(created.room_key, "R1");
    assert_eq!(created.status, "active");
    assert_eq!(created.room_site_id, 1);
    assert_eq!(p.rooms.len(), 1);
    let resumed = ChatService::new_room(&mut p, "S1", Some("R1".to_string()), NOW + 1).unwrap();
    assert_eq!(resumed.id, created.id);
    assert_eq!(p.rooms.len(), 1);
}

#[test]
fn a_room_key_of_another_site_is_refused() {
    let mut p = Persistence::new();
    p.add_site(site(1, "S1", "confirmed"));
    p.add_site(site(2, "S2", "confirmed"));
    ChatService::new_room(&mut p, "S1", Some("R1".to_string()), NOW).unwrap();
    let r = ChatService::new_room(&mut p, "S2", Some("R1".to_string()), NOW);
    assert_eq!(r.unwrap_err(), ChatError::RoomInit);
    assert_eq!(p.rooms.len(), 1);
}

#[test]
fn new_room_generates_a_fresh_key_when_none_is_given() {
    let mut p = Persistence::new();
    p.add_site(site(1, "S1", "confirmed"));
    let room = ChatService::new_room(&mut p, "S1", None, NOW).unwrap();
    assert_eq!(room.room_key.len(), 15);
    assert!(room.room_key.chars().all(|c| c.is_ascii_alphanumeric()));
}

#[test]
fn generated_keys_avoid_existing_rooms() {
    let p = Persistence::new();
    let k1 = ChatService::gen_room_key(&p).unwrap();
    let k2 = ChatService::gen_site_key(&p).unwrap();
    assert_eq!(k1.len(), 15);
    assert_eq!(k2.len(), 15);
    assert!(k1.chars().all(|c| c.is_ascii_alphanumeric()));
}

#[test]
fn load_site_confirms_the_row() {
    let mut p = Persistence::new();
    p.add_site(site(1, "S1", "pending"));
    assert!(!ChatService::load_site(&mut p, "missing"));
    assert!(ChatService::load_site(&mut p, "S1"));
    assert_eq!(p.sites[0].status, "confirmed");
}

#[test]
fn room_disconnect_sets_the_status() {
    let mut p = Persistence::new();
    p.add_site(site(1, "S1", "confirmed"));
    let room = ChatService::new_room(&mut p, "S1", Some("R1".to_string()), NOW).unwrap();
    assert!(ChatService::room_disconnect(&mut p, room.id, NOW + 9));
    assert_eq!(p.rooms[0].status, "disconnect");
    assert_eq!(p.rooms[0].update_at, NOW + 9);
    assert!(!ChatService::room_disconnect(&mut p, 999, NOW));
}

#[test]
fn join_room_marks_only_this_rooms_pending_messages() {
    let mut p = Persistence::new();
    let mut counter = CounterStore::new();
    p.add_site(site(1, "S1", "confirmed"));
    let a = ChatService::new_room(&mut p, "S1", Some("RA".to_string()), NOW).unwrap();
    let b = ChatService::new_room(&mut p, "S1", Some("RB".to_string()), NOW).unwrap();
    ChatService::save_message(
        &mut p,
        chat_relay::session::stamp_message("one", None, None, a.id, None, NOW),
    );
    ChatService::save_message(
        &mut p,
        chat_relay::session::stamp_message("two", None, None, b.id, None, NOW),
    );
    let reset = ChatService::join_room(&mut p, &mut counter, &a, NOW + 1);
    assert!(reset);
    assert_eq!(p.messages[0].status, "readed");
    assert_eq!(p.messages[0].update_at, NOW + 1);
    assert_eq!(p.messages[1].status, "sended");
}

#[test]
fn list_messages_pages_newest_first() {
    let mut p = Persistence::new();
    p.add_site(site(1, "S1", "confirmed"));
    let room = ChatService::new_room(&mut p, "S1", Some("R1".to_string()), NOW).unwrap();
    for k in 0..5u64 {
        ChatService::save_message(
            &mut p,
            chat_relay::session::stamp_message(&format!("m{}", k), None, None, room.id, None, NOW + k),
        );
    }
    let page1 = ChatService::list_messages(&p, room.id, 1, 2, NOW + 100);
    let texts: Vec<&str> = page1.iter().map(|m| m.content.as_str()).collect();
    assert_eq!(texts, vec!["m4", "m3"]);
    let page2 = ChatService::list_messages(&p, room.id, 2, 2, NOW + 100);
    let texts: Vec<&str> = page2.iter().map(|m| m.content.as_str()).collect();
    assert_eq!(texts, vec!["m2", "m1"]);
    let page3 = ChatService::list_messages(&p, room.id, 3, 2, NOW + 100);
    assert_eq!(page3.len(), 1);
    assert_eq!(page3[0].content, "m0");
    // The time bound cuts off the newest.
    let bounded = ChatService::list_messages(&p, room.id, 1, 10, NOW + 2);
    let texts: Vec<&str> = bounded.iter().map(|m| m.content.as_str()).collect();
    assert_eq!(texts, vec!["m2", "m1", "m0"]);
}

#[test]
fn list_rooms_pages_in_table_order() {
    let mut p = Persistence::new();
    p.add_site(site(1, "S1", "confirmed"));
    p.add_site(site(2, "S2", "confirmed"));
    for k in 0..3 {
        ChatService::new_room(&mut p, "S1", Some(format!("R{}", k)), NOW).unwrap();
    }
    ChatService::new_room(&mut p, "S2", Some("other".to_string()), NOW).unwrap();
    let (rooms, total) = ChatService::list_rooms(&p, 1, 1, 2);
    assert_eq!(total, 3);
    let keys: Vec<&str> = rooms.iter().map(|r| r.room_key.as_str()).collect();
    assert_eq!(keys, vec!["R0", "R1"]);
    let (rooms, _) = ChatService::list_rooms(&p, 1, 2, 2);
    let keys: Vec<&str> = rooms.iter().map(|r| r.room_key.as_str()).collect();
    assert_eq!(keys, vec!["R2"]);
}

#[test]
fn client_info_lands_on_the_room() {
    let mut p = Persistence::new();
    p.add_site(site(1, "S1", "confirmed"));
    let room = ChatService::new_room(&mut p, "S1", Some("R1".to_string()), NOW).unwrap();
    assert!(p.set_room_client_info(room.id, "ua=x ip=10.0.0.1", NOW + 1));
    assert_eq!(p.rooms[0].client_info.as_deref(), Some("ua=x ip=10.0.0.1"));
}

#[test]
fn active_room_keys_respect_the_window() {
    let mut p = Persistence::new();
    p.add_site(site(1, "S1", "confirmed"));
    let fresh = ChatService::new_room(&mut p, "S1", Some("R1".to_string()), NOW).unwrap();
    let stale = ChatService::new_room(&mut p, "S1", Some("R2".to_string()), NOW - 100_000).unwrap();
    let gone = ChatService::new_room(&mut p, "S1", Some("R3".to_string()), NOW).unwrap();
    ChatService::room_disconnect(&mut p, gone.id, NOW);
    let keys = p.active_room_keys(1, NOW, 24 * 3600);
    assert_eq!(keys, vec![fresh.id.to_string()]);
    let _ = stale;
}
