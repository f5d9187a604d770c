use hub::{Hub, HubError, Message, ECHO_TO_SELF, OUTBOX_CAPACITY};

fn s(text: &str) -> String {
    text.to_string()
}

fn payloads(messages: &[Message]) -> Vec<String> {
    messages.iter().map(|m| m.payload.clone()).collect()
}

#[test]
fn two_clients_share_a_room_then_one_leaves() {
    let mut hub = Hub::new();
    let a = hub.register_with_id(1).unwrap();
    let b = hub.register_with_id(2).unwrap();
    let room = s("room1");
    hub.join_channel(a, &room).unwrap();
    hub.join_channel(b, &room).unwrap();
    assert_eq!(hub.publish(&room, &s("hello"), a), Ok(vec![]));
    let got_b = hub.take_messages(b).unwrap();
    assert_eq!(payloads(&got_b), vec![s("hello")]);
    assert_eq!(got_b[0].channel, room);
    let got_a = hub.take_messages(a).unwrap();
    assert!(ECHO_TO_SELF);
    assert_eq!(payloads(&got_a), vec![s("hello")]);

    assert_eq!(hub.unregister(b), Ok(()));
    assert_eq!(hub.publish(&room, &s("world"), a), Ok(vec![]));
    assert_eq!(hub.member_count(&room), 1);
    assert!(hub.is_member(&room, a));
    assert!(!hub.is_member(&room, b));
    assert_eq!(payloads(&hub.take_messages(a).unwrap()), vec![s("world")]);
}

#[test]
fn emptied_channel_is_disposed_at_once() {
    let mut hub = Hub::new();
    let c = hub.register_with_id(7).unwrap();
    let x = s("x");
    hub.join_channel(c, &x).unwrap();
    assert!(hub.has_channel(&x));
    assert_eq!(hub.leave_channel(c, &x), Ok(()));
    assert!(!hub.has_channel(&x));
    assert_eq!(hub.publish(&x, &s("late"), c), Err(HubError::UnknownChannel));
    assert_eq!(hub.take_messages(c).unwrap().len(), 0);
}

#[test]
fn join_is_idempotent_and_leave_removes() {
    let mut hub = Hub::new();
    let a = hub.register_with_id(1).unwrap();
    let b = hub.register_with_id(2).unwrap();
    let ch = s("general");
    hub.join_channel(a, &ch).unwrap();
    hub.join_channel(a, &ch).unwrap();
    assert_eq!(hub.member_count(&ch), 1);
    hub.join_channel(b, &ch).unwrap();
    assert_eq!(hub.member_count(&ch), 2);
    assert_eq!(hub.leave_channel(a, &ch), Ok(()));
    assert_eq!(hub.leave_channel(a, &ch), Err(HubError::NotMember));
    assert_eq!(hub.member_count(&ch), 1);
    assert!(hub.is_member(&ch, b));
    assert_eq!(hub.leave_channel(b, &ch), Ok(()));
    assert_eq!(hub.member_count(&ch), 0);
    assert_eq!(hub.leave_channel(b, &ch), Err(HubError::UnknownChannel));
}

#[test]
fn join_by_unknown_client_fails() {
    let mut hub = Hub::new();
    assert_eq!(hub.join_channel(99, &s("a")), Err(HubError::UnknownClient));
    assert!(!hub.has_channel(&s("a")));
}

#[test]
fn publish_reaches_members_only() {
    let mut hub = Hub::new();
    let a = hub.register_with_id(1).unwrap();
    let b = hub.register_with_id(2).unwrap();
    let c = hub.register_with_id(3).unwrap();
    hub.join_channel(a, &s("one")).unwrap();
    hub.join_channel(b, &s("one")).unwrap();
    hub.join_channel(c, &s("two")).unwrap();
    assert_eq!(hub.publish(&s("one"), &s("m"), 42), Ok(vec![]));
    assert_eq!(payloads(&hub.take_messages(a).unwrap()), vec![s("m")]);
    assert_eq!(payloads(&hub.take_messages(b).unwrap()), vec![s("m")]);
    assert_eq!(hub.take_messages(c).unwrap().len(), 0);
}

#[test]
fn messages_arrive_in_publish_order() {
    let mut hub = Hub::new();
    let a = hub.register_with_id(1).unwrap();
    let b = hub.register_with_id(2).unwrap();
    hub.join_channel(b, &s("c")).unwrap();
    hub.publish(&s("c"), &s("m1"), a).unwrap();
    hub.publish(&s("c"), &s("m2"), a).unwrap();
    assert_eq!(payloads(&hub.take_messages(b).unwrap()), vec![s("m1"), s("m2")]);
}

#[test]
fn unregistered_client_receives_nothing() {
    let mut hub = Hub::new();
    let a = hub.register_with_id(1).unwrap();
    let b = hub.register_with_id(2).unwrap();
    hub.join_channel(a, &s("c")).unwrap();
    hub.join_channel(b, &s("c")).unwrap();
    assert_eq!(hub.unregister(a), Ok(()));
    assert!(hub.get_client(a).is_none());
    assert!(!hub.is_member(&s("c"), a));
    assert_eq!(hub.publish(&s("c"), &s("m"), b), Ok(vec![]));
    assert_eq!(hub.take_messages(a), Err(HubError::UnknownClient));
    assert_eq!(hub.unregister(a), Err(HubError::UnknownClient));
}

#[test]
fn unregister_disposes_channels_it_empties() {
    let mut hub = Hub::new();
    let a = hub.register_with_id(1).unwrap();
    let b = hub.register_with_id(2).unwrap();
    hub.join_channel(a, &s("solo")).unwrap();
    hub.join_channel(a, &s("shared")).unwrap();
    hub.join_channel(b, &s("shared")).unwrap();
    hub.unregister(a).unwrap();
    assert!(!hub.has_channel(&s("solo")));
    assert!(hub.has_channel(&s("shared")));
    assert_eq!(hub.member_count(&s("shared")), 1);
}

#[test]
fn rejoined_channel_starts_fresh() {
    let mut hub = Hub::new();
    let a = hub.register_with_id(1).unwrap();
    let b = hub.register_with_id(2).unwrap();
    hub.join_channel(a, &s("x")).unwrap();
    hub.leave_channel(a, &s("x")).unwrap();
    hub.join_channel(b, &s("x")).unwrap();
    assert_eq!(hub.member_count(&s("x")), 1);
    assert!(hub.is_member(&s("x"), b));
    assert!(!hub.is_member(&s("x"), a));
    hub.publish(&s("x"), &s("m"), b).unwrap();
    assert_eq!(hub.take_messages(a).unwrap().len(), 0);
}

#[test]
fn shutdown_twice_is_benign() {
    let mut hub = Hub::new();
    let a = hub.register_with_id(1).unwrap();
    hub.join_channel(a, &s("c")).unwrap();
    assert!(hub.shutdown());
    assert!(hub.is_closed());
    assert!(!hub.shutdown());
    assert!(hub.is_closed());
    assert!(!hub.dispose());
    assert!(hub.get_client(a).is_none());
    assert!(!hub.has_channel(&s("c")));
}

#[test]
fn calls_after_shutdown_fail_with_hub_closed() {
    let mut hub = Hub::new();
    let a = hub.register_with_id(1).unwrap();
    assert!(hub.dispose());
    assert_eq!(hub.register_with_id(5), Err(HubError::HubClosed));
    assert_eq!(hub.join_channel(a, &s("c")), Err(HubError::HubClosed));
    assert_eq!(hub.leave_channel(a, &s("c")), Err(HubError::HubClosed));
    assert_eq!(hub.publish(&s("c"), &s("m"), a), Err(HubError::HubClosed));
    assert_eq!(hub.unregister(a), Err(HubError::HubClosed));
    assert_eq!(hub.take_messages(a), Err(HubError::HubClosed));
}

#[test]
fn full_outbox_drops_only_for_that_recipient() {
    let mut hub = Hub::new();
    let slow = hub.register_with_id(1).unwrap();
    let fast = hub.register_with_id(2).unwrap();
    hub.join_channel(slow, &s("c")).unwrap();
    hub.join_channel(fast, &s("c")).unwrap();
    for i in 0..OUTBOX_CAPACITY {
        assert_eq!(hub.publish(&s("c"), &format!("m{}", i), fast), Ok(vec![]));
        hub.take_messages(fast).unwrap();
    }
    assert_eq!(hub.get_client(slow).unwrap().pending(), OUTBOX_CAPACITY);
    assert_eq!(hub.publish(&s("c"), &s("over"), fast), Ok(vec![slow]));
    assert_eq!(payloads(&hub.take_messages(fast).unwrap()), vec![s("over")]);
    let held = hub.take_messages(slow).unwrap();
    assert_eq!(held.len(), OUTBOX_CAPACITY);
    assert_eq!(held[0].payload, s("m0"));
    assert_eq!(held[OUTBOX_CAPACITY - 1].payload, format!("m{}", OUTBOX_CAPACITY - 1));
    assert_eq!(hub.publish(&s("c"), &s("again"), fast), Ok(vec![]));
    assert_eq!(payloads(&hub.take_messages(slow).unwrap()), vec![s("again")]);
}

#[test]
fn register_with_taken_id_fails() {
    let mut hub = Hub::new();
    assert_eq!(hub.register_with_id(3), Ok(3));
    assert_eq!(hub.register_with_id(3), Err(HubError::IdInUse));
    assert!(hub.get_client(3).unwrap().is_open());
}
