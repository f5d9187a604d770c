use hub::{Channel, HubError};

#[test]
fn channel_join_and_leave() {
    let mut ch = Channel::new("lobby".to_string());
    assert_eq!(ch.name(), "lobby");
    assert!(ch.is_empty());
    assert!(ch.join(5));
    assert!(!ch.join(5));
    assert!(ch.join(6));
    assert_eq!(ch.len(), 2);
    assert_eq!(ch.member_ids(), &vec![5, 6]);
    assert!(ch.contains(5));
    assert_eq!(ch.leave(5), Ok(()));
    assert_eq!(ch.leave(5), Err(HubError::NotMember));
    assert!(!ch.contains(5));
    assert_eq!(ch.len(), 1);
}

#[test]
fn channel_dispose_is_idempotent() {
    let mut ch = Channel::new("c".to_string());
    ch.join(1);
    ch.dispose();
    assert!(ch.is_empty());
    ch.dispose();
    assert!(ch.is_empty());
    assert_eq!(ch.name(), "c");
}
