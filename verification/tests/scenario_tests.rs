//! End-to-end scenarios over the hub, the counter store and the persisted
//! tables, wired together the way the surrounding program would.

use chat_relay::counter::{CounterStore, MessageStatusManager};
use chat_relay::dto::ChatNotify;
use chat_relay::hub::Hub;
use chat_relay::session::stamp_message;
use chat_relay::store::{ChatService, ChatWebsite, Persistence};
use chat_relay::util::u64_to_string;

const NOW: u64 = 1_700_000_000;

fn confirmed_site(key: &str) -> ChatWebsite {
    ChatWebsite {
        id: 7,
        site_key: key.to_string(),
        status: "confirmed".to_string(),
        title: "shop".to_string(),
    }
}

/// A world with one confirmed site and one freshly opened room, returning
/// the hub key the room is addressed by.
fn world() -> (Persistence, CounterStore, Hub, u64, String) {
    let mut p = Persistence::new();
    p.add_site(confirmed_site("S1"));
    let counter = CounterStore::new();
    let room = ChatService::new_room(&mut p, "S1", Some("R1".to_string()), NOW).unwrap();
    let hub = Hub::new();
    let hub_key = u64_to_string(room.id);
    (p, counter, hub, room.id, hub_key)
}

#[test]
fn operator_live_relay() {
    // Operator and visitor in the same room; the visitor speaks; the
    // message is persisted once and fanned out to the operator alone,
    // with no counter movement.
    let (mut p, mut counter, mut hub, room_id, hub_key) = world();
    let op = hub.register("S1", &hub_key, true);
    let visitor = hub.register("S1", &hub_key, false);

    let live = hub.route_decide("S1", &hub_key);
    assert!(live);
    let message = stamp_message("hi", None, None, room_id, None, NOW);
    let persisted_before = p.messages.len();
    ChatService::save_message(&mut p, message);
    assert_eq!(p.messages.len(), persisted_before + 1);

    let e = hub.route_finish(live, true, visitor, false, "S1", &hub_key);
    assert_eq!(e.fanout.unwrap(), vec![op]);
    assert!(!e.increment_counters);
    assert!(e.notify_conn.is_none());
    let (latest, total) = MessageStatusManager::get_room_message_counts(&counter, "S1", &hub_key);
    assert_eq!((latest, total), (0, 0));
    assert_eq!(MessageStatusManager::get_total_unread(&counter, "S1"), 0);
}

#[test]
fn offline_notification_increments_counters() {
    // No operator bound: the visitor's message raises all three counters
    // by one and no chat frame goes anywhere.
    let (mut p, mut counter, mut hub, room_id, hub_key) = world();
    let visitor = hub.register("S1", &hub_key, false);

    let live = hub.route_decide("S1", &hub_key);
    assert!(!live);
    ChatService::save_message(&mut p, stamp_message("hi", None, None, room_id, None, NOW));

    let e = hub.route_finish(live, true, visitor, false, "S1", &hub_key);
    assert!(e.fanout.is_none());
    assert!(e.increment_counters);
    assert!(e.notify_conn.is_none());
    MessageStatusManager::increase_latest_count(&mut counter, "S1", &hub_key, 1);

    let (latest, total) = MessageStatusManager::get_room_message_counts(&counter, "S1", &hub_key);
    assert_eq!((latest, total), (1, 1));
    assert_eq!(MessageStatusManager::get_total_unread(&counter, "S1"), 1);
}

#[test]
fn join_resets_unread_and_notifies_operator() {
    // After the offline message, the operator arrives and joins the room:
    // the latest count returns to zero, the site total drops by what was
    // pending, and one aggregate snapshot goes to the operator connection.
    let (mut p, mut counter, mut hub, room_id, hub_key) = world();
    let visitor = hub.register("S1", &hub_key, false);
    let live = hub.route_decide("S1", &hub_key);
    ChatService::save_message(&mut p, stamp_message("hi", None, None, room_id, None, NOW));
    hub.route_finish(live, true, visitor, false, "S1", &hub_key);
    MessageStatusManager::increase_latest_count(&mut counter, "S1", &hub_key, 1);

    let op = hub.register("S1", "lobby", true);
    let now_civil = chat_relay::dates::civil_from_epoch(NOW, 0);
    let _switch = hub.switch_room(op, &hub_key, true, Some("ada".to_string()), "S1", now_civil);

    let room = chat_relay::store::clone_room(&p.rooms[0]);
    let reset = ChatService::join_room(&mut p, &mut counter, &room, NOW);
    assert!(reset);
    let (latest, _) = MessageStatusManager::get_room_message_counts(&counter, "S1", &hub_key);
    assert_eq!(latest, 0);
    assert_eq!(MessageStatusManager::get_total_unread(&counter, "S1"), 0);
    assert_eq!(p.messages[0].status, "readed");

    let rooms = p.active_room_keys(7, NOW, 24 * 3600);
    assert_eq!(rooms, vec![hub_key.clone()]);
    let snapshot = ChatNotify::new_from_redis(&counter, "S1", &rooms);
    assert!(snapshot.to_server);
    assert_eq!(snapshot.message.total_unread, 0);
    assert_eq!(snapshot.message.message_counts, vec![(hub_key.clone(), 0)]);
    let (_, bound_conn) = hub.operator_binding("S1").expect("operator stays bound");
    assert_eq!(bound_conn, op);
}

#[test]
fn disconnect_marks_room_offline() {
    // The visitor's connection closes: the room's persisted status turns
    // offline and the room leaves the site's cached room set.
    let (mut p, mut counter, mut hub, room_id, hub_key) = world();
    let visitor = hub.register("S1", &hub_key, false);
    let effects = hub.unregister(visitor, "S1", &hub_key, false);

    assert_eq!(effects.mark_room_offline.as_deref(), Some(hub_key.as_str()));
    let found = p.set_room_status(room_id, "offline", NOW);
    assert!(found);
    assert_eq!(p.rooms[0].status, "offline");

    let (site, remaining) = effects.save_site_rooms.unwrap();
    assert_eq!(site, "S1");
    assert!(remaining.is_empty());
    MessageStatusManager::set_site_rooms(&mut counter, "S1", &remaining);
    let cached = MessageStatusManager::get_site_rooms(&counter, "S1");
    assert!(cached.is_empty());
}

#[test]
fn resuming_a_visitor_session_reuses_the_room_row() {
    // Opening a conversation twice under one key resumes the same row.
    let mut p = Persistence::new();
    p.add_site(confirmed_site("S1"));
    let first = ChatService::new_room(&mut p, "S1", Some("R1".to_string()), NOW).unwrap();
    let _ = p.set_room_status(first.id, "disconnect", NOW + 5);
    let second = ChatService::new_room(&mut p, "S1", Some("R1".to_string()), NOW + 10).unwrap();
    assert_eq!(p.rooms.len(), 1);
    assert_eq!(second.id, first.id);
    assert_eq!(second.status, "active");
    assert_eq!(p.rooms[0].status, "active");
}
