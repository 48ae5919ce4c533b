use chat_relay::counter::{
    latest_count_key, site_rooms_key, total_count_key, total_unread_key, CounterStore,
    MessageStatusManager,
};
use chat_relay::dto::{ChatMessageDto, ChatNotify};
use chat_relay::util::{
    generate_random_string, str_eq, str_to_usize, u64_to_string, upload_object_key,
};

#[test]
fn counter_keys_have_the_store_layout() {
    assert_eq!(latest_count_key("s", "r"), "site:s:room:r:latest_count");
    assert_eq!(total_count_key("s", "r"), "site:s:room:r:total_count");
    assert_eq!(total_unread_key("s"), "site:s:total_unread");
    assert_eq!(site_rooms_key("s"), "site:s:rooms");
}

#[test]
fn paired_increments_move_all_three_cells() {
    let mut c = CounterStore::new();
    MessageStatusManager::increase_latest_count(&mut c, "s", "r", 2);
    MessageStatusManager::increase_latest_count(&mut c, "s", "r", 1);
    MessageStatusManager::increase_latest_count(&mut c, "s", "other", 4);
    assert_eq!(MessageStatusManager::get_room_message_counts(&c, "s", "r"), (3, 3));
    assert_eq!(MessageStatusManager::get_room_message_counts(&c, "s", "other"), (4, 4));
    assert_eq!(MessageStatusManager::get_total_unread(&c, "s"), 7);
    assert_eq!(MessageStatusManager::get_total_unread(&c, "elsewhere"), 0);
}

#[test]
fn reset_keeps_the_total_count_and_repays_the_site_total() {
    let mut c = CounterStore::new();
    MessageStatusManager::increase_latest_count(&mut c, "s", "r", 3);
    MessageStatusManager::increase_latest_count(&mut c, "s", "q", 2);
    MessageStatusManager::reset_latest_count(&mut c, "s", "r");
    assert_eq!(MessageStatusManager::get_room_message_counts(&c, "s", "r"), (0, 3));
    assert_eq!(MessageStatusManager::get_room_message_counts(&c, "s", "q"), (2, 2));
    assert_eq!(MessageStatusManager::get_total_unread(&c, "s"), 2);
}

#[test]
fn site_rooms_survive_the_snapshot_round_trip() {
    let mut c = CounterStore::new();
    let rooms = vec!["r1".to_string(), "r2".to_string(), "r3".to_string()];
    MessageStatusManager::set_site_rooms(&mut c, "s", &rooms);
    assert_eq!(MessageStatusManager::get_site_rooms(&c, "s"), rooms);
    assert!(MessageStatusManager::get_site_rooms(&c, "unknown").is_empty());
    MessageStatusManager::set_site_rooms(&mut c, "s", &Vec::new());
    assert!(MessageStatusManager::get_site_rooms(&c, "s").is_empty());
}

#[test]
fn the_snapshot_reads_per_room_latest_counts() {
    let mut c = CounterStore::new();
    MessageStatusManager::increase_latest_count(&mut c, "s", "1", 2);
    MessageStatusManager::increase_latest_count(&mut c, "s", "2", 5);
    let rooms = vec!["1".to_string(), "2".to_string(), "3".to_string()];
    let snapshot = ChatNotify::new_from_redis(&c, "s", &rooms);
    assert!(snapshot.to_server);
    assert!(snapshot.message.new_message);
    assert_eq!(snapshot.message.total_unread, 7);
    assert_eq!(
        snapshot.message.message_counts,
        vec![("1".to_string(), 2), ("2".to_string(), 5), ("3".to_string(), 0)]
    );
}

#[test]
fn frame_constructors_fill_the_fixed_fields() {
    let m = ChatMessageDto::new_text_msg("hi", true, Some("bob".to_string()), Some("7".to_string()));
    assert_eq!(m.text, "hi");
    assert!(m.user);
    assert_eq!(m.user_name.as_deref(), Some("bob"));
    assert_eq!(m.str_files.as_deref(), Some(""));
    assert_eq!(m.notify, "");
    assert_eq!(m.room_id.as_deref(), Some("7"));
    assert_eq!(m.time.len(), 19);
    // An anonymous sender flag flips so the frame reads as the peer's.
    let anon = ChatMessageDto::new_text_msg("hi", true, None, None);
    assert!(!anon.user);
    let n = ChatMessageDto::new_notify_msg("walk this way", false, None, Some("7".to_string()));
    assert_eq!(n.notify, "walk this way");
    assert_eq!(n.text, "");
    assert!(!n.user);
    let f = ChatMessageDto::new_text_str_files_msg(
        "hi",
        Some("[\"a.png\"]".to_string()),
        false,
        Some("bob".to_string()),
        None,
    );
    assert_eq!(f.str_files.as_deref(), Some("[\"a.png\"]"));
    assert!(!f.user);
}

#[test]
fn small_helpers_hold_their_contracts() {
    assert_eq!(str_to_usize("0"), Some(0));
    assert_eq!(str_to_usize("4096"), Some(4096));
    assert_eq!(str_to_usize(""), None);
    assert_eq!(str_to_usize("12x"), None);
    assert_eq!(str_to_usize("99999999999999999999999999"), None);
    assert!(str_eq("abc", "abc"));
    assert!(!str_eq("abc", "abd"));
    assert_eq!(u64_to_string(0), "0");
    assert_eq!(u64_to_string(90210), "90210");
    let k = generate_random_string(15);
    assert_eq!(k.len(), 15);
    assert!(k.chars().all(|c| c.is_ascii_alphanumeric()));
    assert_eq!(
        upload_object_key("2024-05-06", 1700000000, 42, "cat.png"),
        "/ada_chat/files/2024-05-06/170000000042_cat.png"
    );
}
