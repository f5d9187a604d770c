use hub::{Client, HubError, Message, OUTBOX_CAPACITY};

fn msg(channel: &str, payload: &str) -> Message {
    Message::new(channel.to_string(), payload.to_string())
}

#[test]
fn new_client_is_open_and_empty() {
    let c = Client::new(11);
    assert_eq!(c.id(), 11);
    assert!(c.is_open());
    assert_eq!(c.pending(), 0);
}

#[test]
fn deliver_then_read_in_order() {
    let mut c = Client::new(1);
    assert_eq!(c.deliver(msg("a", "1")), Ok(()));
    assert_eq!(c.deliver(msg("a", "2")), Ok(()));
    assert_eq!(c.pending(), 2);
    assert_eq!(c.next_message().unwrap().payload, "1");
    assert_eq!(c.next_message().unwrap().payload, "2");
    assert!(c.next_message().is_none());
}

#[test]
fn full_outbox_refuses_delivery() {
    let mut c = Client::new(1);
    for _ in 0..OUTBOX_CAPACITY {
        assert_eq!(c.deliver(msg("a", "x")), Ok(()));
    }
    assert_eq!(c.deliver(msg("a", "y")), Err(HubError::BackpressureExceeded));
    assert_eq!(c.pending(), OUTBOX_CAPACITY);
    assert_eq!(c.take_pending().len(), OUTBOX_CAPACITY);
    assert_eq!(c.pending(), 0);
}

#[test]
fn client_dispose_is_idempotent() {
    let mut c = Client::new(1);
    c.deliver(msg("a", "x")).unwrap();
    c.dispose();
    assert!(!c.is_open());
    assert_eq!(c.pending(), 0);
    c.dispose();
    assert!(!c.is_open());
    assert_eq!(c.deliver(msg("a", "y")), Err(HubError::ClientClosed));
    assert!(c.next_message().is_none());
}
