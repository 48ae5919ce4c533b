use chat_relay::hub::Hub;

fn sorted(mut v: Vec<String>) -> Vec<String> {
    v.sort();
    v
}

#[test]
fn register_assigns_fresh_ids() {
    let mut hub = Hub::new();
    let a = hub.register("s1", "r1", false);
    let b = hub.register("s1", "r1", false);
    let c = hub.register("s2", "r2", true);
    assert_ne!(a, b);
    assert_ne!(b, c);
    assert_ne!(a, c);
}

#[test]
fn register_then_unregister_restores_empty_hub() {
    let mut hub = Hub::new();
    let id = hub.register("s1", "r1", false);
    let effects = hub.unregister(id, "s1", "r1", false);
    assert!(hub.list_rooms().is_empty());
    assert!(hub.operator_binding("s1").is_none());
    let (site, rooms) = effects.save_site_rooms.expect("visitor leave snapshots the site rooms");
    assert_eq!(site, "s1");
    assert!(rooms.is_empty());
    assert_eq!(effects.mark_room_offline.as_deref(), Some("r1"));
}

#[test]
fn register_then_unregister_keeps_other_members() {
    let mut hub = Hub::new();
    let stay = hub.register("s1", "r1", false);
    let gone = hub.register("s1", "r1", false);
    hub.unregister(gone, "s1", "r1", false);
    assert_eq!(hub.list_rooms(), vec!["r1".to_string()]);
    // The remaining member still receives a live fan-out.
    let e = hub.route_finish(true, true, usize::MAX, false, "s1", "r1");
    assert_eq!(e.fanout.unwrap(), vec![stay]);
}

#[test]
fn at_most_one_binding_per_site() {
    let mut hub = Hub::new();
    hub.register("s1", "r1", true);
    let second = hub.register("s1", "r2", true);
    let (room, conn) = hub.operator_binding("s1").expect("a binding stays installed");
    assert_eq!(room, "r2");
    assert_eq!(conn, second);
    assert!(hub.operator_binding("s2").is_none());
}

#[test]
fn stale_unregister_keeps_newer_binding() {
    let mut hub = Hub::new();
    let old_op = hub.register("s1", "r1", true);
    let new_op = hub.register("s1", "r1", true);
    // The older operator's late disconnect must not clear the newer binding.
    hub.unregister(old_op, "s1", "r1", true);
    let (_, conn) = hub.operator_binding("s1").expect("newer binding survives");
    assert_eq!(conn, new_op);
    // The newer operator's own disconnect does clear it.
    hub.unregister(new_op, "s1", "r1", true);
    assert!(hub.operator_binding("s1").is_none());
}

#[test]
fn switch_room_broadcasts_to_new_room_only() {
    let mut hub = Hub::new();
    let visitor_new = hub.register("s1", "r2", false);
    let visitor_old = hub.register("s1", "r1", false);
    let op = hub.register("s1", "r1", true);
    let now = chat_relay::dates::CivilDateTime {
        year: 2024,
        month: 1,
        day: 2,
        hour: 3,
        minute: 4,
        second: 5,
        milli: 0,
    };
    let e = hub.switch_room(op, "r2", true, Some("ada".to_string()), "s1", now);
    // Every other current member of the new room, and no member of the
    // prior room.
    assert_eq!(e.targets, vec![visitor_new]);
    assert!(!e.targets.contains(&visitor_old));
    assert!(!e.targets.contains(&op));
    let notice = e.notice.expect("an operator switch announces itself");
    assert_eq!(notice.notify, "ada is now serving you");
    assert_eq!(notice.user_name.as_deref(), Some("ada"));
    assert_eq!(notice.room_id.as_deref(), Some("r2"));
    assert_eq!(notice.time, "2024-01-02 03:04:05");
    assert!(!notice.user);
    // The binding follows the operator into the new room.
    let (room, _) = hub.operator_binding("s1").unwrap();
    assert_eq!(room, "r2");
}

#[test]
fn visitor_switch_stays_silent() {
    let mut hub = Hub::new();
    let v = hub.register("s1", "r1", false);
    hub.register("s1", "r2", false);
    let now = chat_relay::dates::CivilDateTime {
        year: 2024,
        month: 1,
        day: 2,
        hour: 3,
        minute: 4,
        second: 5,
        milli: 0,
    };
    let e = hub.switch_room(v, "r2", false, None, "s1", now);
    assert!(e.notice.is_none());
    assert_eq!(e.targets.len(), 1);
}

#[test]
fn route_decide_follows_binding() {
    let mut hub = Hub::new();
    assert!(!hub.route_decide("s1", "r1"));
    hub.register("s1", "r1", true);
    assert!(hub.route_decide("s1", "r1"));
    assert!(!hub.route_decide("s1", "r2"));
    assert!(!hub.route_decide("s2", "r1"));
}

#[test]
fn route_finish_on_failure_moves_nothing() {
    let mut hub = Hub::new();
    hub.register("s1", "r1", true);
    hub.register("s1", "r1", false);
    for live in [true, false] {
        let e = hub.route_finish(live, false, 0, false, "s1", "r1");
        assert!(e.fanout.is_none());
        assert!(!e.increment_counters);
        assert!(e.notify_conn.is_none());
    }
}

#[test]
fn route_finish_non_live_notifies_bound_operator() {
    let mut hub = Hub::new();
    let op = hub.register("s1", "r2", true);
    let visitor = hub.register("s1", "r1", false);
    assert!(!hub.route_decide("s1", "r1"));
    let e = hub.route_finish(false, true, visitor, false, "s1", "r1");
    assert!(e.fanout.is_none());
    assert!(e.increment_counters);
    assert_eq!(e.notify_conn, Some(op));
    // An operator's own non-live message never notifies back.
    let e2 = hub.route_finish(false, true, op, true, "s1", "r1");
    assert!(e2.increment_counters);
    assert!(e2.notify_conn.is_none());
}

#[test]
fn list_rooms_snapshots_membership() {
    let mut hub = Hub::new();
    hub.register("s1", "r1", false);
    hub.register("s1", "r2", false);
    hub.register("s2", "r3", false);
    assert_eq!(
        sorted(hub.list_rooms()),
        vec!["r1".to_string(), "r2".to_string(), "r3".to_string()]
    );
}

#[test]
fn operator_switch_installs_a_missing_binding() {
    let mut hub = Hub::new();
    let first = hub.register("s1", "r1", true);
    let second = hub.register("s1", "r1", true);
    // The later operator's departure clears the binding; the survivor's
    // switch installs a fresh one pointing at itself.
    hub.unregister(second, "s1", "r1", true);
    assert!(hub.operator_binding("s1").is_none());
    let now = chat_relay::dates::CivilDateTime {
        year: 2024,
        month: 1,
        day: 2,
        hour: 3,
        minute: 4,
        second: 5,
        milli: 0,
    };
    hub.switch_room(first, "r2", true, None, "s1", now);
    let (room, conn) = hub.operator_binding("s1").expect("switch installs the binding");
    assert_eq!(room, "r2");
    assert_eq!(conn, first);
}

#[test]
fn operator_register_then_unregister_restores_when_room_cached() {
    let mut hub = Hub::new();
    // The visitor already put r1 in the site cache; the operator's visit
    // then leaves no trace at all.
    let visitor = hub.register("s1", "r1", false);
    let op = hub.register("s1", "r1", true);
    hub.unregister(op, "s1", "r1", true);
    assert!(hub.operator_binding("s1").is_none());
    assert_eq!(hub.list_rooms(), vec!["r1".to_string()]);
    let effects = hub.unregister(visitor, "s1", "r1", false);
    let (_, remaining) = effects.save_site_rooms.unwrap();
    assert!(remaining.is_empty());
}
